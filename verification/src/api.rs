//! The operations of the library's users: comparing version strings,
//! constraints, version objects, and bumping versions.
use std::cmp::Ordering;
use vstd::prelude::*;
use vstd::string::StringExecFns;
use vstd::string::StringSliceAdditionalSpecFns;
use vstd::utf8::*;

use crate::parser::{
    autodetect_ecosystem, autodetect_spec, ecosystem_by_name, generic_input, parse, segments_of,
    segs_view, unsupported_ecosystem_message, Ecosystem, ParsedVersion, Seg, SegV,
};
use crate::strategies::{
    compare_for_ecosystem, lemma_parse_outcome, lemma_repr_order_same, parse_for_ecosystem,
    parse_outcome, repr_order, strategy_of,
};
use crate::strategies::semver::{split_head, with_quoted};
use crate::text::{
    contains_bytes, contains_sub, cut_ok, decimal_chars, find_byte, find_sub, first_pos,
    first_sub_pos, head_part, ix, lemma_cut_around_ascii, lemma_encode_empty, lemma_first_pos,
    lemma_first_sub_pos, lemma_str_valid, lower_chars, parse_u64_all, parse_u64_spec, split_on,
    str_eq, substr, substr_from, tail_part, to_ascii_lowercase, trim, trim_chars, trimmed_bytes,
    u64_to_string, BANG, CARET, COMMA, DOT, EQUALS, GREATER_THAN, LESS_THAN, LOWER_X, PIPE, STAR,
    TILDE, UPPER_X,
};

verus! {

broadcast use vstd::utf8::group_utf8_lib;

/// `s` asks for the automatic choice: it is `auto` in any case.
pub open spec fn is_auto_name(s: Seq<char>) -> bool {
    lower_chars(s) == "auto"@
}

/// Whether `s` is `auto`, ignoring ASCII case.
pub fn is_auto(s: &str) -> (r: bool)
    ensures
        r == is_auto_name(s@),
{
    let l = to_ascii_lowercase(s);
    str_eq(l.as_str(), "auto")
}

/// The ecosystem that `name` picks for a comparison whose left side is `a`:
/// for `auto` the one detected from `a`, else the one named.
pub open spec fn ecosystem_choice(name: Seq<char>, a: Seq<char>) -> Result<Ecosystem, Seq<char>> {
    if is_auto_name(name) {
        Ok(autodetect_spec(encode_utf8(lower_chars(a))))
    } else {
        match ecosystem_by_name(lower_chars(name)) {
            Some(e) => Ok(e),
            None => Err(unsupported_ecosystem_message(lower_chars(name))),
        }
    }
}

fn choose_ecosystem(name: &str, a: &str) -> (r: Result<Ecosystem, String>)
    ensures
        match ecosystem_choice(name@, a@) {
            Ok(e) => r == Ok::<Ecosystem, String>(e),
            Err(m) => r matches Err(e) && e@ == m,
        },
{
    if is_auto(name) {
        Ok(autodetect_ecosystem(a))
    } else {
        Ecosystem::from_str(name)
    }
}

/// Comparing the version strings `a` and `b` under the ecosystem `name`:
/// the ecosystem's message, or the first parse error, or the order.
#[verifier::opaque]
pub open spec fn compare_str_spec(a: Seq<char>, b: Seq<char>, name: Seq<char>) -> Result<
    Ordering,
    Seq<char>,
> {
    match ecosystem_choice(name, a) {
        Err(m) => Err(m),
        Ok(e) => {
            let s = strategy_of(e);
            match parse_outcome(s, a) {
                Err(m) => Err(m@),
                Ok(pa) => match parse_outcome(s, b) {
                    Err(m) => Err(m@),
                    Ok(pb) => Ok(repr_order(s, pa, pb)),
                },
            }
        },
    }
}

pub open spec fn agrees_ord(r: Result<Ordering, String>, s: Result<Ordering, Seq<char>>) -> bool {
    match s {
        Ok(o) => r == Ok::<Ordering, String>(o),
        Err(m) => r matches Err(e) && e@ == m,
    }
}

/// Compares the version strings `a` and `b` as versions of the ecosystem
/// `ecosystem` (a name, or `auto` to detect it from `a`).
pub fn compare_str_with_ecosystem(a: &str, b: &str, ecosystem: &str) -> (r: Result<
    Ordering,
    String,
>)
    ensures
        agrees_ord(r, compare_str_spec(a@, b@, ecosystem@)),
{
    proof {
        reveal(compare_str_spec);
    }
    let eco = match choose_ecosystem(ecosystem, a) {
        Ok(e) => e,
        Err(m) => {
            return Err(m);
        },
    };
    let ghost s = strategy_of(eco);
    let left = parse_for_ecosystem(eco, a);
    proof {
        lemma_parse_outcome(s, a@, left);
    }
    let left = match left {
        Ok(p) => p,
        Err(m) => {
            return Err(m);
        },
    };
    let right = parse_for_ecosystem(eco, b);
    proof {
        lemma_parse_outcome(s, b@, right);
    }
    let right = match right {
        Ok(p) => p,
        Err(m) => {
            return Err(m);
        },
    };
    proof {
        lemma_repr_order_same(
            s,
            left,
            right,
            parse_outcome(s, a@)->Ok_0,
            parse_outcome(s, b@)->Ok_0,
        );
    }
    Ok(compare_for_ecosystem(eco, &left, &right))
}

/// `t` starts with the two bytes `x` and `y`.
pub open spec fn starts_with2(t: Seq<u8>, x: u8, y: u8) -> bool {
    t.len() >= 2 && t[0] == x && t[1] == y
}

/// The operator at the front of a (trimmed) constraint and its length;
/// two-byte operators are tried before one-byte ones.
pub open spec fn constraint_op(t: Seq<u8>) -> Option<(Seq<char>, int)> {
    if starts_with2(t, GREATER_THAN, EQUALS) {
        Some((">="@, 2))
    } else if starts_with2(t, LESS_THAN, EQUALS) {
        Some(("<="@, 2))
    } else if starts_with2(t, BANG, EQUALS) {
        Some(("!="@, 2))
    } else if starts_with2(t, EQUALS, EQUALS) {
        Some(("=="@, 2))
    } else if t.len() >= 1 && t[0] == GREATER_THAN {
        Some((">"@, 1))
    } else if t.len() >= 1 && t[0] == LESS_THAN {
        Some(("<"@, 1))
    } else {
        None
    }
}

/// The message for a constraint without an operator.
pub open spec fn invalid_constraint_message(s: Seq<char>) -> Seq<char> {
    "invalid constraint: "@ + "'"@ + s + "'"@
        + "; expected operator (>=, <=, >, <, ==, !=) followed by version"@
}

/// Splits a constraint such as `>= 1.0` into its operator and its version,
/// both trimmed.
pub fn parse_constraint<'a>(spec: &'a str) -> (r: Result<(&'a str, &'a str), String>)
    ensures
        match constraint_op(trimmed_bytes(spec@)) {
            Some((op, k)) => r matches Ok((o, v)) && o@ == op && v@ == trim_chars(
                decode_utf8(trimmed_bytes(spec@).skip(k)),
            ),
            None => r matches Err(m) && m@ == invalid_constraint_message(trim_chars(spec@)),
        },
{
    let s = trim(spec);
    let b = s.as_bytes();
    let n = b.len();
    proof {
        lemma_str_valid(s);
    }
    let (op, k): (&'a str, usize) = if n >= 2 && b[0] == GREATER_THAN && b[1] == EQUALS {
        (">=", 2)
    } else if n >= 2 && b[0] == LESS_THAN && b[1] == EQUALS {
        ("<=", 2)
    } else if n >= 2 && b[0] == BANG && b[1] == EQUALS {
        ("!=", 2)
    } else if n >= 2 && b[0] == EQUALS && b[1] == EQUALS {
        ("==", 2)
    } else if n >= 1 && b[0] == GREATER_THAN {
        (">", 1)
    } else if n >= 1 && b[0] == LESS_THAN {
        ("<", 1)
    } else {
        let mut m = with_quoted("invalid constraint: ", s);
        m.append("; expected operator (>=, <=, >, <, ==, !=) followed by version");
        return Err(m);
    };
    proof {
        lemma_cut_around_ascii(b@, k - 1);
        assert(b@.subrange(k as int, n as int) =~= b@.skip(k as int));
    }
    let rest = substr_from(s, k);
    Ok((op, trim(rest)))
}

/// Whether an order `o` meets the operator `op`; an unknown operator is
/// never met.
pub open spec fn op_holds(op: Seq<char>, o: Ordering) -> bool {
    if op == ">="@ {
        o != Ordering::Less
    } else if op == "<="@ {
        o != Ordering::Greater
    } else if op == ">"@ {
        o == Ordering::Greater
    } else if op == "<"@ {
        o == Ordering::Less
    } else if op == "=="@ {
        o == Ordering::Equal
    } else if op == "!="@ {
        o != Ordering::Equal
    } else {
        false
    }
}

/// Whether the order `ord` of a version against a bound meets `op`.
pub fn eval_op(op: &str, ord: Ordering) -> (r: bool)
    ensures
        r == op_holds(op@, ord),
{
    let less = match ord {
        Ordering::Less => true,
        _ => false,
    };
    let equal = match ord {
        Ordering::Equal => true,
        _ => false,
    };
    let greater = match ord {
        Ordering::Greater => true,
        _ => false,
    };
    if str_eq(op, ">=") {
        !less
    } else if str_eq(op, "<=") {
        !greater
    } else if str_eq(op, ">") {
        greater
    } else if str_eq(op, "<") {
        less
    } else if str_eq(op, "==") {
        equal
    } else if str_eq(op, "!=") {
        !equal
    } else {
        false
    }
}

// ---------------------------------------------------------------------------
// Release numbers and bumps
// ---------------------------------------------------------------------------

/// The segments the generic parser finds in `version`.
pub open spec fn version_segments(version: Seq<char>) -> Seq<SegV> {
    segments_of(generic_input(version))
}

/// The number at position `i` of `s`, when there is one.
pub open spec fn num_at(s: Seq<SegV>, i: int) -> Option<u64> {
    if 0 <= i < s.len() {
        match s[i] {
            SegV::Num(n) => Some(n),
            SegV::Text(_) => None,
        }
    } else {
        None
    }
}

/// The number at position `i` of `s`, or 0.
pub open spec fn num_or_zero(s: Seq<SegV>, i: int) -> u64 {
    match num_at(s, i) {
        Some(n) => n,
        None => 0,
    }
}

/// `major.minor.patch` in decimal.
pub open spec fn triple_chars(major: nat, minor: nat, patch: nat) -> Seq<char> {
    decimal_chars(major) + "."@ + decimal_chars(minor) + "."@ + decimal_chars(patch)
}

/// Formats `major.minor.patch`.
pub fn fmt_triple(major: u64, minor: u64, patch: u64) -> (r: String)
    ensures
        r@ == triple_chars(major as nat, minor as nat, patch as nat),
{
    let mut m = u64_to_string(major);
    m.append(".");
    let b = u64_to_string(minor);
    m.append(b.as_str());
    m.append(".");
    let c = u64_to_string(patch);
    m.append(c.as_str());
    m
}

/// The number at position `i` of `segs`, when there is one.
fn num_at_exec(segs: &Vec<Seg>, i: usize) -> (r: Option<u64>)
    ensures
        r == num_at(segs_view(segs@), i as int),
{
    if i < segs.len() {
        match &segs[i] {
            Seg::Num(n) => Some(*n),
            Seg::Text(_) => None,
        }
    } else {
        None
    }
}

/// The first three segments as numbers, 0 where a segment is missing or a
/// word.
pub fn release_triple(v: &ParsedVersion) -> (r: (u64, u64, u64))
    ensures
        r == (
            num_or_zero(segs_view(v.segments@), 0),
            num_or_zero(segs_view(v.segments@), 1),
            num_or_zero(segs_view(v.segments@), 2),
        ),
{
    let major = match num_at_exec(&v.segments, 0) {
        Some(n) => n,
        None => 0,
    };
    let minor = match num_at_exec(&v.segments, 1) {
        Some(n) => n,
        None => 0,
    };
    let patch = match num_at_exec(&v.segments, 2) {
        Some(n) => n,
        None => 0,
    };
    (major, minor, patch)
}

/// The next major release: the first number plus one (1 without one),
/// then `.0.0`.
pub fn bump_major(version: &str) -> (r: String)
    requires
        num_at(version_segments(version@), 0) != Some(u64::MAX),
    ensures
        r@ == match num_at(version_segments(version@), 0) {
            Some(n) => triple_chars((n + 1) as nat, 0, 0),
            None => triple_chars(1, 0, 0),
        },
{
    let v = parse(version);
    let major = match num_at_exec(&v.segments, 0) {
        Some(n) => n + 1,
        None => 1,
    };
    fmt_triple(major, 0, 0)
}

/// The next minor release: the first number kept, the second plus one (1
/// without one), then `.0`.
pub fn bump_minor(version: &str) -> (r: String)
    requires
        num_at(version_segments(version@), 1) != Some(u64::MAX),
    ensures
        r@ == triple_chars(
            num_or_zero(version_segments(version@), 0) as nat,
            match num_at(version_segments(version@), 1) {
                Some(n) => (n + 1) as nat,
                None => 1,
            },
            0,
        ),
{
    let v = parse(version);
    let major = match num_at_exec(&v.segments, 0) {
        Some(n) => n,
        None => 0,
    };
    let minor = match num_at_exec(&v.segments, 1) {
        Some(n) => n + 1,
        None => 1,
    };
    fmt_triple(major, minor, 0)
}

/// The next patch release: the first two numbers kept, the third plus one
/// (1 without one).
pub fn bump_patch(version: &str) -> (r: String)
    requires
        num_at(version_segments(version@), 2) != Some(u64::MAX),
    ensures
        r@ == triple_chars(
            num_or_zero(version_segments(version@), 0) as nat,
            num_or_zero(version_segments(version@), 1) as nat,
            match num_at(version_segments(version@), 2) {
                Some(n) => (n + 1) as nat,
                None => 1,
            },
        ),
{
    let v = parse(version);
    let major = match num_at_exec(&v.segments, 0) {
        Some(n) => n,
        None => 0,
    };
    let minor = match num_at_exec(&v.segments, 1) {
        Some(n) => n,
        None => 0,
    };
    let patch = match num_at_exec(&v.segments, 2) {
        Some(n) => n + 1,
        None => 1,
    };
    fmt_triple(major, minor, patch)
}

/// The release form of a version: its first three numbers, without any
/// pre- or post-release words or build metadata.
pub fn next_stable(version: &str) -> (r: String)
    ensures
        r@ == triple_chars(
            num_or_zero(version_segments(version@), 0) as nat,
            num_or_zero(version_segments(version@), 1) as nat,
            num_or_zero(version_segments(version@), 2) as nat,
        ),
{
    let v = parse(version);
    let (major, minor, patch) = release_triple(&v);
    fmt_triple(major, minor, patch)
}

/// The position of the first word at or after `i` in `s`.
pub open spec fn first_text_from(s: Seq<SegV>, i: int) -> Option<int>
    decreases s.len() - i,
{
    if i < 0 || i >= s.len() {
        None
    } else if s[i] is Text {
        Some(i)
    } else {
        first_text_from(s, i + 1)
    }
}

pub proof fn lemma_first_text_from(s: Seq<SegV>, i: int)
    ensures
        first_text_from(s, i) matches Some(p) ==> (i <= p < s.len() && s[p] is Text),
    decreases s.len() - i,
{
    if 0 <= i < s.len() && !(s[i] is Text) {
        lemma_first_text_from(s, i + 1);
    }
}

/// The number that a pre-release bump puts after the tag: one more than
/// the number after the first word when that word is the tag, else 0.
pub open spec fn prerelease_counter(s: Seq<SegV>, tag: Seq<char>) -> nat {
    match first_text_from(s, 0) {
        Some(p) => if s[p] == SegV::Text(tag) {
            match num_at(s, p + 1) {
                Some(n) => (n + 1) as nat,
                None => 0,
            }
        } else {
            0
        },
        None => 0,
    }
}

/// The counter after the tag would not pass `u64::MAX`.
pub open spec fn prerelease_counter_fits(s: Seq<SegV>, tag: Seq<char>) -> bool {
    match first_text_from(s, 0) {
        Some(p) => s[p] == SegV::Text(tag) ==> num_at(s, p + 1) != Some(u64::MAX),
        None => true,
    }
}

fn first_text_exec(segs: &Vec<Seg>) -> (r: Option<usize>)
    ensures
        match r {
            Some(p) => first_text_from(segs_view(segs@), 0) == Some(p as int),
            None => first_text_from(segs_view(segs@), 0) is None,
        },
{
    let mut i: usize = 0;
    while i < segs.len()
        invariant
            i <= segs@.len(),
            first_text_from(segs_view(segs@), 0) == first_text_from(segs_view(segs@), i as int),
        decreases segs.len() - i,
    {
        match &segs[i] {
            Seg::Text(_) => {
                return Some(i);
            },
            Seg::Num(_) => {},
        }
        i += 1;
    }
    None
}

/// Bumps the pre-release counter: `major.minor.patch-tag.N`, where the tag
/// is lower-cased and `N` is one more than the number after the first word
/// when that word is the tag, else 0.
pub fn bump_prerelease(version: &str, tag: &str) -> (r: String)
    requires
        prerelease_counter_fits(version_segments(version@), lower_chars(tag@)),
    ensures
        r@ == triple_chars(
            num_or_zero(version_segments(version@), 0) as nat,
            num_or_zero(version_segments(version@), 1) as nat,
            num_or_zero(version_segments(version@), 2) as nat,
        ) + "-"@ + lower_chars(tag@) + "."@ + decimal_chars(
            prerelease_counter(version_segments(version@), lower_chars(tag@)),
        ),
{
    let v = parse(version);
    let (major, minor, patch) = release_triple(&v);
    let tag_lower = to_ascii_lowercase(tag);
    let mut n: u64 = 0;
    proof {
        lemma_first_text_from(segs_view(v.segments@), 0);
    }
    match first_text_exec(&v.segments) {
        Some(pos) => {
            match &v.segments[pos] {
                Seg::Text(existing) => {
                    if str_eq(existing.as_str(), tag_lower.as_str()) {
                        n = match num_at_exec(&v.segments, pos + 1) {
                            Some(k) => k + 1,
                            None => 0,
                        };
                    }
                },
                Seg::Num(_) => {},
            }
        },
        None => {},
    }
    let mut m = fmt_triple(major, minor, patch);
    m.append("-");
    m.append(tag_lower.as_str());
    m.append(".");
    let c = u64_to_string(n);
    m.append(c.as_str());
    m
}

/// Whether the number at position `i` of the version's segments is
/// `u64::MAX`, which has no next.
fn number_is_max(version: &str, i: usize) -> (r: bool)
    ensures
        r == (num_at(version_segments(version@), i as int) == Some(u64::MAX)),
{
    let v = parse(version);
    match num_at_exec(&v.segments, i) {
        Some(n) => n == u64::MAX,
        None => false,
    }
}

/// [`bump_major`], or `None` where the first number is `u64::MAX`.
pub fn bump_major_checked(version: &str) -> (r: Option<String>)
    ensures
        match r {
            None => num_at(version_segments(version@), 0) == Some(u64::MAX),
            Some(s) => num_at(version_segments(version@), 0) != Some(u64::MAX) && s@ == match num_at(
                version_segments(version@),
                0,
            ) {
                Some(n) => triple_chars((n + 1) as nat, 0, 0),
                None => triple_chars(1, 0, 0),
            },
        },
{
    if number_is_max(version, 0) {
        None
    } else {
        Some(bump_major(version))
    }
}

/// [`bump_minor`], or `None` where the second number is `u64::MAX`.
pub fn bump_minor_checked(version: &str) -> (r: Option<String>)
    ensures
        match r {
            None => num_at(version_segments(version@), 1) == Some(u64::MAX),
            Some(s) => num_at(version_segments(version@), 1) != Some(u64::MAX) && s@ == triple_chars(
                num_or_zero(version_segments(version@), 0) as nat,
                match num_at(version_segments(version@), 1) {
                    Some(n) => (n + 1) as nat,
                    None => 1,
                },
                0,
            ),
        },
{
    if number_is_max(version, 1) {
        None
    } else {
        Some(bump_minor(version))
    }
}

/// [`bump_patch`], or `None` where the third number is `u64::MAX`.
pub fn bump_patch_checked(version: &str) -> (r: Option<String>)
    ensures
        match r {
            None => num_at(version_segments(version@), 2) == Some(u64::MAX),
            Some(s) => num_at(version_segments(version@), 2) != Some(u64::MAX) && s@ == triple_chars(
                num_or_zero(version_segments(version@), 0) as nat,
                num_or_zero(version_segments(version@), 1) as nat,
                match num_at(version_segments(version@), 2) {
                    Some(n) => (n + 1) as nat,
                    None => 1,
                },
            ),
        },
{
    if number_is_max(version, 2) {
        None
    } else {
        Some(bump_patch(version))
    }
}

/// Whether the pre-release counter of `version` under `tag` has a next.
fn counter_fits(version: &str, tag: &str) -> (r: bool)
    ensures
        r == prerelease_counter_fits(version_segments(version@), lower_chars(tag@)),
{
    let v = parse(version);
    let tag_lower = to_ascii_lowercase(tag);
    proof {
        lemma_first_text_from(segs_view(v.segments@), 0);
    }
    match first_text_exec(&v.segments) {
        Some(pos) => match &v.segments[pos] {
            Seg::Text(existing) => {
                if str_eq(existing.as_str(), tag_lower.as_str()) {
                    match num_at_exec(&v.segments, pos + 1) {
                        Some(k) => k != u64::MAX,
                        None => true,
                    }
                } else {
                    true
                }
            },
            Seg::Num(_) => true,
        },
        None => true,
    }
}

/// [`bump_prerelease`], or `None` where the counter after the tag is
/// `u64::MAX`.
pub fn bump_prerelease_checked(version: &str, tag: &str) -> (r: Option<String>)
    ensures
        match r {
            None => !prerelease_counter_fits(version_segments(version@), lower_chars(tag@)),
            Some(s) => prerelease_counter_fits(version_segments(version@), lower_chars(tag@)) && s@
                == triple_chars(
                num_or_zero(version_segments(version@), 0) as nat,
                num_or_zero(version_segments(version@), 1) as nat,
                num_or_zero(version_segments(version@), 2) as nat,
            ) + "-"@ + lower_chars(tag@) + "."@ + decimal_chars(
                prerelease_counter(version_segments(version@), lower_chars(tag@)),
            ),
        },
{
    if counter_fits(version, tag) {
        Some(bump_prerelease(version, tag))
    } else {
        None
    }
}

// ---------------------------------------------------------------------------
// Range shorthands
// ---------------------------------------------------------------------------

/// A wildcard part of a range: `x`, `X` or `*`.
pub open spec fn is_wildcard(p: Seq<u8>) -> bool {
    p == seq![LOWER_X] || p == seq![UPPER_X] || p == seq![STAR]
}

/// Up to three dot-separated numbers of `b`, from part `i` on, after the
/// numbers `acc`: the numbers, and the index of the first wildcard (3 when
/// none comes first); `None` when a part is neither.
pub open spec fn num_prefix_from(b: Seq<u8>, i: nat, acc: Seq<u64>) -> Option<(Seq<u64>, nat)>
    decreases 3 - i,
{
    if i >= 3 {
        Some((acc, 3))
    } else {
        let h = head_part(b, DOT);
        if is_wildcard(h) {
            Some((acc, i))
        } else {
            match parse_u64_spec(h) {
                None => None,
                Some(n) => match tail_part(b, DOT) {
                    None => Some((acc.push(n), 3)),
                    Some(t) => num_prefix_from(t, i + 1, acc.push(n)),
                },
            }
        }
    }
}

/// The numbers at the front of a trimmed version prefix and the depth of
/// its first wildcard; `None` for empty input or a part that is neither.
pub open spec fn num_prefix_spec(input: Seq<char>) -> Option<(Seq<u64>, nat)> {
    let t = trimmed_bytes(input);
    if t.len() == 0 {
        None
    } else {
        match num_prefix_from(t, 0, seq![]) {
            Some((p, d)) => if p.len() == 0 && d != 0 {
                None
            } else {
                Some((p, d))
            },
            None => None,
        }
    }
}

fn is_wildcard_exec(p: &[u8]) -> (r: bool)
    ensures
        r == is_wildcard(p@),
{
    if p.len() == 1 && (p[0] == LOWER_X || p[0] == UPPER_X || p[0] == STAR) {
        assert(p@ =~= seq![p@[0]]);
        true
    } else {
        false
    }
}

fn num_prefix_exec(b: &[u8], i: usize, acc: Vec<u64>) -> (r: Option<(Vec<u64>, usize)>)
    requires
        i <= 3,
    ensures
        match num_prefix_from(b@, i as nat, acc@) {
            Some((p, d)) => r matches Some((v, e)) && v@ == p && e == d,
            None => r is None,
        },
    decreases 3 - i,
{
    if i >= 3 {
        return Some((acc, 3));
    }
    let (h, t) = split_head(b);
    if is_wildcard_exec(h) {
        return Some((acc, i));
    }
    match parse_u64_all(h) {
        None => None,
        Some(n) => {
            let mut acc = acc;
            acc.push(n);
            match t {
                None => Some((acc, 3)),
                Some(u) => num_prefix_exec(u, i + 1, acc),
            }
        },
    }
}

/// Reads one to three dot-separated numbers from the front of a version,
/// where `x`, `X` or `*` is a wildcard: the numbers, and the index of the
/// wildcard (3 when there is none).
pub fn parse_num_prefix(input: &str) -> (r: Option<(Vec<u64>, usize)>)
    ensures
        match num_prefix_spec(input@) {
            Some((p, d)) => r matches Some((v, e)) && v@ == p && e == d,
            None => r is None,
        },
{
    let s = trim(input);
    let b = s.as_bytes();
    if b.len() == 0 {
        return None;
    }
    match num_prefix_exec(b, 0, Vec::new()) {
        Some((parts, d)) => {
            if parts.len() == 0 && d != 0 {
                None
            } else {
                Some((parts, d))
            }
        },
        None => None,
    }
}

/// The number at position `i` of `p`, or 0.
pub open spec fn part_or_zero(p: Seq<u64>, i: int) -> u64 {
    if 0 <= i < p.len() {
        p[i]
    } else {
        0
    }
}

/// The upper bound of a caret range: one more in the left-most non-zero
/// place.
pub open spec fn caret_upper(p: Seq<u64>) -> (int, int, int) {
    let (ma, mi, pa) = (part_or_zero(p, 0), part_or_zero(p, 1), part_or_zero(p, 2));
    if ma > 0 {
        (ma + 1, 0, 0)
    } else if mi > 0 {
        (0, mi + 1, 0)
    } else {
        (0, 0, pa + 1)
    }
}

/// The upper bound of a tilde range: the next minor when a minor is given,
/// else the next major.
pub open spec fn tilde_upper(p: Seq<u64>) -> (int, int, int) {
    let (ma, mi) = (part_or_zero(p, 0), part_or_zero(p, 1));
    if p.len() >= 2 {
        (ma as int, mi + 1, 0)
    } else {
        (ma + 1, 0, 0)
    }
}

/// The upper bound of an x-range: the next major for `N.x`, else the next
/// minor.
pub open spec fn xrange_upper(p: Seq<u64>, depth: nat) -> (int, int, int) {
    let (ma, mi) = (part_or_zero(p, 0), part_or_zero(p, 1));
    if depth == 1 {
        (ma + 1, 0, 0)
    } else {
        (ma as int, mi + 1, 0)
    }
}

/// The bounds `>=lower` and `<upper`; `None` when the upper bound does not
/// fit in `u64`.
pub open spec fn bound_pairs(lower: (u64, u64, u64), upper: (int, int, int)) -> Option<
    Seq<(Seq<char>, Seq<char>)>,
> {
    if upper.0 > u64::MAX || upper.1 > u64::MAX || upper.2 > u64::MAX {
        None
    } else {
        Some(
            seq![
                (">="@, triple_chars(lower.0 as nat, lower.1 as nat, lower.2 as nat)),
                ("<"@, triple_chars(upper.0 as nat, upper.1 as nat, upper.2 as nat)),
            ],
        )
    }
}

/// Lifts a result through a possible overflow.
pub open spec fn ok_bounds(b: Option<Seq<(Seq<char>, Seq<char>)>>) -> Option<
    Result<Seq<(Seq<char>, Seq<char>)>, Seq<char>>,
> {
    match b {
        Some(v) => Some(Ok(v)),
        None => None,
    }
}

/// The basic constraints that a range token stands for: `*`, `^N.N.N`,
/// `~N.N`, `N.N.x`, or a bare `op version`. `None` where an upper bound
/// would pass `u64::MAX`.
#[verifier::opaque]
pub open spec fn shorthand_spec(token: Seq<char>) -> Option<
    Result<Seq<(Seq<char>, Seq<char>)>, Seq<char>>,
> {
    let t = trimmed_bytes(token);
    let tc = trim_chars(token);
    if t.len() == 0 {
        Some(Err("empty constraint"@))
    } else if t == seq![STAR] || t == seq![LOWER_X] || t == seq![UPPER_X] {
        Some(Ok(seq![(">="@, "0.0.0"@)]))
    } else if t[0] == CARET {
        match num_prefix_spec(decode_utf8(t.drop_first())) {
            None => Some(Err("invalid caret range: "@ + "'"@ + tc + "'"@)),
            Some((p, _)) => ok_bounds(
                bound_pairs(
                    (part_or_zero(p, 0), part_or_zero(p, 1), part_or_zero(p, 2)),
                    caret_upper(p),
                ),
            ),
        }
    } else if t[0] == TILDE {
        match num_prefix_spec(decode_utf8(t.drop_first())) {
            None => Some(Err("invalid tilde range: "@ + "'"@ + tc + "'"@)),
            Some((p, _)) => ok_bounds(
                bound_pairs(
                    (part_or_zero(p, 0), part_or_zero(p, 1), part_or_zero(p, 2)),
                    tilde_upper(p),
                ),
            ),
        }
    } else if contains_sub(t, seq![DOT, LOWER_X]) || contains_sub(t, seq![DOT, UPPER_X])
        || contains_sub(t, seq![DOT, STAR]) {
        match num_prefix_spec(tc) {
            None => Some(Err("invalid x-range: "@ + "'"@ + tc + "'"@)),
            Some((p, d)) => ok_bounds(
                bound_pairs((part_or_zero(p, 0), part_or_zero(p, 1), 0), xrange_upper(p, d)),
            ),
        }
    } else {
        match constraint_op(trimmed_bytes(tc)) {
            Some((op, k)) => Some(
                Ok(seq![(op, trim_chars(decode_utf8(trimmed_bytes(tc).skip(k))))]),
            ),
            None => Some(Err(invalid_constraint_message(trim_chars(tc)))),
        }
    }
}

/// The views of a list of string pairs.
pub open spec fn pairs_view(v: Seq<(String, String)>) -> Seq<(Seq<char>, Seq<char>)> {
    Seq::new(v.len(), |i: int| (v[i].0@, v[i].1@))
}

/// Lists `>=lower` and `<upper`, or `None` when an upper number is
/// `u64::MAX` plus one.
fn bounds(lower: (u64, u64, u64), upper: (u64, u64, u64), bump: usize) -> (r: Option<
    Vec<(String, String)>,
>)
    requires
        bump < 3,
    ensures
        match bound_pairs(
            lower,
            if bump == 0 {
                (upper.0 + 1, upper.1 as int, upper.2 as int)
            } else if bump == 1 {
                (upper.0 as int, upper.1 + 1, upper.2 as int)
            } else {
                (upper.0 as int, upper.1 as int, upper.2 + 1)
            },
        ) {
            Some(p) => r matches Some(v) && pairs_view(v@) == p,
            None => r is None,
        },
{
    let (a, b, c) = upper;
    let up = if bump == 0 {
        if a == u64::MAX {
            return None;
        }
        fmt_triple(a + 1, b, c)
    } else if bump == 1 {
        if b == u64::MAX {
            return None;
        }
        fmt_triple(a, b + 1, c)
    } else {
        if c == u64::MAX {
            return None;
        }
        fmt_triple(a, b, c + 1)
    };
    let lo = fmt_triple(lower.0, lower.1, lower.2);
    let mut v: Vec<(String, String)> = Vec::new();
    v.push((">=".to_owned(), lo));
    v.push(("<".to_owned(), up));
    assert(pairs_view(v@) =~= seq![(">="@, triple_chars(lower.0 as nat, lower.1 as nat, lower.2 as nat)), ("<"@, v@[1].1@)]);
    Some(v)
}

fn nth_or_zero(p: &Vec<u64>, i: usize) -> (r: u64)
    ensures
        r == part_or_zero(p@, i as int),
{
    if i < p.len() {
        p[i]
    } else {
        0
    }
}

/// Expands a range token (`^1.2.3`, `~1.2`, `1.2.x`, `*`) into basic
/// constraints; a bare constraint (`>=1.0.0`) passes through. `None` where
/// an upper bound would pass `u64::MAX`.
pub fn expand_shorthand(token: &str) -> (r: Option<Result<Vec<(String, String)>, String>>)
    ensures
        match shorthand_spec(token@) {
            None => r is None,
            Some(Err(m)) => r matches Some(Err(e)) && e@ == m,
            Some(Ok(p)) => r matches Some(Ok(v)) && pairs_view(v@) == p,
        },
{
    proof {
        reveal(shorthand_spec);
    }
    let t = trim(token);
    let b = t.as_bytes();
    let n = b.len();
    proof {
        lemma_str_valid(t);
    }
    if n == 0 {
        return Some(Err("empty constraint".to_owned()));
    }
    if n == 1 && (b[0] == STAR || b[0] == LOWER_X || b[0] == UPPER_X) {
        assert(b@ =~= seq![b@[0]]);
        let mut v: Vec<(String, String)> = Vec::new();
        v.push((">=".to_owned(), "0.0.0".to_owned()));
        assert(pairs_view(v@) =~= seq![(">="@, "0.0.0"@)]);
        return Some(Ok(v));
    }
    proof {
        if n == 1 {
            assert(b@ != seq![STAR] && b@ != seq![LOWER_X] && b@ != seq![UPPER_X]) by {
                if b@ == seq![STAR] || b@ == seq![LOWER_X] || b@ == seq![UPPER_X] {
                    assert(b@[0] == STAR || b@[0] == LOWER_X || b@[0] == UPPER_X);
                }
            }
        }
    }
    if b[0] == CARET || b[0] == TILDE {
        proof {
            lemma_cut_around_ascii(b@, 0);
            assert(b@.subrange(1, n as int) =~= b@.drop_first());
        }
        let rest = substr_from(t, 1);
        let caret = b[0] == CARET;
        match parse_num_prefix(rest) {
            None => {
                let m = if caret {
                    with_quoted("invalid caret range: ", t)
                } else {
                    with_quoted("invalid tilde range: ", t)
                };
                return Some(Err(m));
            },
            Some((parts, _)) => {
                let ma = nth_or_zero(&parts, 0);
                let mi = nth_or_zero(&parts, 1);
                let pa = nth_or_zero(&parts, 2);
                let r = if caret {
                    if ma > 0 {
                        bounds((ma, mi, pa), (ma, 0, 0), 0)
                    } else if mi > 0 {
                        bounds((ma, mi, pa), (0, mi, 0), 1)
                    } else {
                        bounds((ma, mi, pa), (0, 0, pa), 2)
                    }
                } else if parts.len() >= 2 {
                    bounds((ma, mi, pa), (ma, mi, 0), 1)
                } else {
                    bounds((ma, mi, pa), (ma, 0, 0), 0)
                };
                return match r {
                    Some(v) => Some(Ok(v)),
                    None => None,
                };
            },
        }
    }
    let dx: [u8; 2] = [DOT, LOWER_X];
    let dxx: [u8; 2] = [DOT, UPPER_X];
    let ds: [u8; 2] = [DOT, STAR];
    assert(dx@ =~= seq![DOT, LOWER_X]);
    assert(dxx@ =~= seq![DOT, UPPER_X]);
    assert(ds@ =~= seq![DOT, STAR]);
    if contains_bytes(b, dx.as_slice()) || contains_bytes(b, dxx.as_slice()) || contains_bytes(
        b,
        ds.as_slice(),
    ) {
        match parse_num_prefix(t) {
            None => {
                return Some(Err(with_quoted("invalid x-range: ", t)));
            },
            Some((parts, d)) => {
                let ma = nth_or_zero(&parts, 0);
                let mi = nth_or_zero(&parts, 1);
                let r = if d == 1 {
                    bounds((ma, mi, 0), (ma, 0, 0), 0)
                } else {
                    bounds((ma, mi, 0), (ma, mi, 0), 1)
                };
                return match r {
                    Some(v) => Some(Ok(v)),
                    None => None,
                };
            },
        }
    }
    match parse_constraint(t) {
        Ok((op, v)) => {
            let mut out: Vec<(String, String)> = Vec::new();
            out.push((op.to_owned(), v.to_owned()));
            assert(pairs_view(out@) =~= seq![(op@, v@)]);
            Some(Ok(out))
        },
        Err(m) => Some(Err(m)),
    }
}

// ---------------------------------------------------------------------------
// Constraints
// ---------------------------------------------------------------------------

/// Whether `version` meets every basic constraint of `clauses`, in order;
/// the first failed one decides, and a comparison error stops the check.
pub open spec fn clauses_result(
    version: Seq<char>,
    clauses: Seq<(Seq<char>, Seq<char>)>,
    eco: Seq<char>,
) -> Result<bool, Seq<char>>
    decreases clauses.len(),
{
    if clauses.len() == 0 {
        Ok(true)
    } else {
        match compare_str_spec(version, clauses[0].1, eco) {
            Err(m) => Err(m),
            Ok(o) => if op_holds(clauses[0].0, o) {
                clauses_result(version, clauses.drop_first(), eco)
            } else {
                Ok(false)
            },
        }
    }
}

/// The comma-separated parts of one branch of a constraint: whether all
/// the non-blank parts hold (stopping at the first that does not), and
/// whether there was a non-blank part; `None` where a range bound would
/// pass `u64::MAX`.
pub open spec fn parts_result(version: Seq<char>, parts: Seq<Seq<u8>>, eco: Seq<char>) -> Option<
    Result<(bool, bool), Seq<char>>,
>
    decreases parts.len(),
{
    if parts.len() == 0 {
        Some(Ok((true, false)))
    } else {
        let tok = trim_chars(decode_utf8(parts[0]));
        if tok.len() == 0 {
            parts_result(version, parts.drop_first(), eco)
        } else {
            match shorthand_spec(tok) {
                None => None,
                Some(Err(m)) => Some(Err(m)),
                Some(Ok(cl)) => match clauses_result(version, cl, eco) {
                    Err(m) => Some(Err(m)),
                    Ok(false) => Some(Ok((false, true))),
                    Ok(true) => match parts_result(version, parts.drop_first(), eco) {
                        None => None,
                        Some(Err(m)) => Some(Err(m)),
                        Some(Ok((ok, _))) => Some(Ok((ok, true))),
                    },
                },
            }
        }
    }
}

/// The `||`-separated branches of a constraint, left to right: true at the
/// first branch with a clause whose clauses all hold.
pub open spec fn branches_result(version: Seq<char>, branches: Seq<Seq<u8>>, eco: Seq<char>) -> Option<
    Result<bool, Seq<char>>,
>
    decreases branches.len(),
{
    if branches.len() == 0 {
        Some(Ok(false))
    } else {
        match parts_result(version, split_on(branches[0], COMMA), eco) {
            None => None,
            Some(Err(m)) => Some(Err(m)),
            Some(Ok((ok, has))) => if ok && has {
                Some(Ok(true))
            } else {
                branches_result(version, branches.drop_first(), eco)
            },
        }
    }
}

/// The parts of `b` between occurrences of `||`.
pub open spec fn or_branches(b: Seq<u8>) -> Seq<Seq<u8>>
    decreases b.len(),
    via or_branches_decreases
{
    match first_sub_pos(b, seq![PIPE, PIPE]) {
        Some(p) => seq![b.subrange(0, p)] + or_branches(b.subrange(p + 2, b.len() as int)),
        None => seq![b],
    }
}

#[via_fn]
proof fn or_branches_decreases(b: Seq<u8>) {
    lemma_first_sub_pos(b, seq![PIPE, PIPE]);
}

/// Whether `version` satisfies `constraint` under the ecosystem `eco`.
pub open spec fn satisfies_spec(version: Seq<char>, constraint: Seq<char>, eco: Seq<char>) -> Option<
    Result<bool, Seq<char>>,
> {
    branches_result(version, or_branches(encode_utf8(constraint)), eco)
}

fn check_clauses(version: &str, clauses: &Vec<(String, String)>, ecosystem: &str) -> (r: Result<
    bool,
    String,
>)
    ensures
        match clauses_result(version@, pairs_view(clauses@), ecosystem@) {
            Ok(b) => r == Ok::<bool, String>(b),
            Err(m) => r matches Err(e) && e@ == m,
        },
{
    let mut i: usize = 0;
    assert(pairs_view(clauses@).skip(0) =~= pairs_view(clauses@));
    while i < clauses.len()
        invariant
            i <= clauses@.len(),
            clauses_result(version@, pairs_view(clauses@), ecosystem@) == clauses_result(
                version@,
                pairs_view(clauses@).skip(ix(i)),
                ecosystem@,
            ),
        decreases clauses.len() - i,
    {
        let ghost rest = pairs_view(clauses@).skip(ix(i));
        proof {
            assert(rest[0] == (clauses@[ix(i)].0@, clauses@[ix(i)].1@));
            assert(rest.drop_first() =~= pairs_view(clauses@).skip(i + 1));
        }
        let ord = match compare_str_with_ecosystem(version, clauses[i].1.as_str(), ecosystem) {
            Ok(o) => o,
            Err(m) => {
                return Err(m);
            },
        };
        if !eval_op(clauses[i].0.as_str(), ord) {
            return Ok(false);
        }
        i += 1;
    }
    assert(pairs_view(clauses@).skip(ix(i)).len() == 0);
    Ok(true)
}

/// `s` cut at its first byte `x`: the part before and, if there is one,
/// the part after.
fn split_first<'a>(s: &'a str, x: u8) -> (r: (&'a str, Option<&'a str>))
    requires
        x < 128,
    ensures
        match first_pos(s.spec_bytes(), x) {
            Some(p) => r.0.spec_bytes() == s.spec_bytes().subrange(0, p) && (r.1 matches Some(t)
                && t.spec_bytes() == s.spec_bytes().subrange(p + 1, s.spec_bytes().len() as int)),
            None => r.0.spec_bytes() == s.spec_bytes() && r.1 is None,
        },
{
    let b = s.as_bytes();
    let n = b.len();
    proof {
        lemma_str_valid(s);
        lemma_first_pos(b@, x);
    }
    match find_byte(b, x) {
        Some(p) => {
            proof {
                lemma_cut_around_ascii(b@, p as int);
                assert(cut_ok(b@, 0));
            }
            (substr(s, 0, p), Some(substr_from(s, p + 1)))
        },
        None => (s, None),
    }
}

#[verifier::spinoff_prover]
fn check_parts(version: &str, rest: &str, ecosystem: &str) -> (r: Option<Result<(bool, bool), String>>)
    ensures
        match parts_result(version@, split_on(rest.spec_bytes(), COMMA), ecosystem@) {
            None => r is None,
            Some(Ok(v)) => r == Some(Ok::<(bool, bool), String>(v)),
            Some(Err(m)) => r matches Some(Err(e)) && e@ == m,
        },
    decreases rest.spec_bytes().len(),
{
    let ghost b = rest.spec_bytes();
    proof {
        lemma_first_pos(b, COMMA);
    }
    let (head, tail) = split_first(rest, COMMA);
    let ghost parts = split_on(b, COMMA);
    proof {
        match first_pos(b, COMMA) {
            Some(p) => {
                assert(parts[0] == b.subrange(0, p));
                assert(parts.drop_first() =~= split_on(b.subrange(p + 1, b.len() as int), COMMA));
            },
            None => {
                assert(parts[0] == b);
                assert(parts.drop_first() =~= Seq::<Seq<u8>>::empty());
            },
        }
    }
    let part = trim(head);
    proof {
        lemma_encode_empty(part@);
        assert(head@ == decode_utf8(parts[0]));
        assert(part@ == trim_chars(decode_utf8(parts[0])));
        assert(parts_result(version@, parts, ecosystem@) == {
            let tok = trim_chars(decode_utf8(parts[0]));
            if tok.len() == 0 {
                parts_result(version@, parts.drop_first(), ecosystem@)
            } else {
                match shorthand_spec(tok) {
                    None => None,
                    Some(Err(m)) => Some(Err(m)),
                    Some(Ok(cl)) => match clauses_result(version@, cl, ecosystem@) {
                        Err(m) => Some(Err(m)),
                        Ok(false) => Some(Ok((false, true))),
                        Ok(true) => match parts_result(version@, parts.drop_first(), ecosystem@) {
                            None => None,
                            Some(Err(m)) => Some(Err(m)),
                            Some(Ok((ok, _))) => Some(Ok((ok, true))),
                        },
                    },
                }
            }
        });
    }
    let rest_result = if part.as_bytes().len() == 0 {
        None
    } else {
        match expand_shorthand(part) {
            None => {
                return None;
            },
            Some(Err(m)) => {
                return Some(Err(m));
            },
            Some(Ok(clauses)) => match check_clauses(version, &clauses, ecosystem) {
                Err(m) => {
                    return Some(Err(m));
                },
                Ok(false) => {
                    return Some(Ok((false, true)));
                },
                Ok(true) => Some(true),
            },
        }
    };
    let more = match tail {
        Some(t) => check_parts(version, t, ecosystem),
        None => Some(Ok((true, false))),
    };
    match rest_result {
        None => more,
        Some(_) => match more {
            None => None,
            Some(Err(m)) => Some(Err(m)),
            Some(Ok((ok, _))) => Some(Ok((ok, true))),
        },
    }
}

#[verifier::spinoff_prover]
fn check_branches(version: &str, rest: &str, ecosystem: &str) -> (r: Option<Result<bool, String>>)
    ensures
        match branches_result(version@, or_branches(rest.spec_bytes()), ecosystem@) {
            None => r is None,
            Some(Ok(v)) => r == Some(Ok::<bool, String>(v)),
            Some(Err(m)) => r matches Some(Err(e)) && e@ == m,
        },
    decreases rest.spec_bytes().len(),
{
    let b = rest.as_bytes();
    let n = b.len();
    let pipes: [u8; 2] = [PIPE, PIPE];
    assert(pipes@ =~= seq![PIPE, PIPE]);
    proof {
        lemma_first_sub_pos(b@, seq![PIPE, PIPE]);
        lemma_str_valid(rest);
    }
    let ghost branches = or_branches(b@);
    let (head, tail): (&str, Option<&str>) = match find_sub(b, pipes.as_slice()) {
        Some(p) => {
            proof {
                assert(b@[p as int] == PIPE) by {
                    assert(b@.subrange(p as int, p + 2) == seq![PIPE, PIPE]);
                    assert(b@.subrange(p as int, p + 2)[0] == b@[p as int]);
                }
                assert(b@[p + 1] == PIPE) by {
                    assert(b@.subrange(p as int, p + 2)[1] == b@[p + 1]);
                }
                lemma_cut_around_ascii(b@, p as int);
                lemma_cut_around_ascii(b@, p + 1);
                assert(cut_ok(b@, 0));
                assert(branches[0] == b@.subrange(0, p as int));
                assert(branches.drop_first() =~= or_branches(b@.subrange(p + 2, n as int)));
            }
            (substr(rest, 0, p), Some(substr_from(rest, p + 2)))
        },
        None => {
            proof {
                assert(branches[0] == b@);
                assert(branches.drop_first() =~= Seq::<Seq<u8>>::empty());
            }
            (rest, None)
        },
    };
    proof {
        assert(branches_result(version@, branches, ecosystem@) == match parts_result(
            version@,
            split_on(branches[0], COMMA),
            ecosystem@,
        ) {
            None => None,
            Some(Err(m)) => Some(Err(m)),
            Some(Ok((ok, has))) => if ok && has {
                Some(Ok(true))
            } else {
                branches_result(version@, branches.drop_first(), ecosystem@)
            },
        });
    }
    match check_parts(version, head, ecosystem) {
        None => None,
        Some(Err(m)) => Some(Err(m)),
        Some(Ok((ok, has))) => {
            if ok && has {
                Some(Ok(true))
            } else {
                match tail {
                    Some(t) => check_branches(version, t, ecosystem),
                    None => Some(Ok(false)),
                }
            }
        },
    }
}

/// Checks `version` against `constraint` (`>=1.0,<2.0`, `^1.0 || ^2.0`,
/// `~1.2`, `1.2.x`, `*`); `None` where a range bound in the part that is
/// checked would pass `u64::MAX`.
pub fn satisfies_checked(version: &str, constraint: &str, ecosystem: &str) -> (r: Option<
    Result<bool, String>,
>)
    ensures
        match satisfies_spec(version@, constraint@, ecosystem@) {
            None => r is None,
            Some(Ok(v)) => r == Some(Ok::<bool, String>(v)),
            Some(Err(m)) => r matches Some(Err(e)) && e@ == m,
        },
{
    check_branches(version, constraint, ecosystem)
}

/// Whether `version` satisfies `constraint` under the ecosystem
/// `ecosystem`: operators `>=`, `<=`, `>`, `<`, `==`, `!=`; AND by comma, OR
/// by `||`; shorthands `^1.2.3`, `~1.2`, `1.2.x`, `*`.
pub fn satisfies(version: &str, constraint: &str, ecosystem: &str) -> (r: Result<bool, String>)
    requires
        satisfies_spec(version@, constraint@, ecosystem@) is Some,
    ensures
        match satisfies_spec(version@, constraint@, ecosystem@) {
            Some(Ok(v)) => r == Ok::<bool, String>(v),
            Some(Err(m)) => r matches Err(e) && e@ == m,
            None => false,
        },
{
    match satisfies_checked(version, constraint, ecosystem) {
        Some(r) => r,
        None => Ok(false),
    }
}

} // verus!
