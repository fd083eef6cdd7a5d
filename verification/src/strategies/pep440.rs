//! PEP 440: the check of the public version, and the order of local labels
//! (`+local`) that breaks ties between equal public versions.
use std::cmp::Ordering;
use vstd::prelude::*;
use vstd::string::StringSliceAdditionalSpecFns;
use vstd::utf8::*;

use crate::order::{is_equal, lex_order, lex_order_exec, order_usize_exec};
use crate::parser::{before_plus, generic_input, strip_v, ParsedVersion};
use crate::strategies::generic::{cmp_parsed, parsed_order};
use crate::strategies::semver::{agrees_unit, split_head, with_quoted};
use crate::text::{
    all_digits, all_digits_from, byte_is_digit, byte_to_lower, find_byte, first_pos, head_part,
    int_of, is_digit, ix, lemma_cut_around_ascii, lemma_first_pos, lemma_str_valid, lemma_tail_part,
    lemma_zero_run, lower_byte, substr, tail_part, trim, zero_run, zero_run_end, BANG, DASH, DOT,
    PLUS, UNDERSCORE,
};

verus! {

broadcast use vstd::utf8::group_utf8_lib;

/// The check of what follows the epoch: the public version (up to the first
/// `+`) must start with a digit.
pub open spec fn pep440_release_check(rest: Seq<u8>, input: Seq<char>) -> Result<(), Seq<char>> {
    let v = before_plus(rest);
    if v.len() == 0 {
        Err("empty PEP 440 version: "@ + "'"@ + input + "'"@)
    } else if !is_digit(v[0]) {
        Err("PEP 440 version must start with a digit: "@ + "'"@ + input + "'"@)
    } else {
        Ok(())
    }
}

/// The PEP 440 check of a version: trimmed and without a `v` prefix, an
/// epoch before the first `!` must be digits, and the public version must
/// start with a digit.
pub open spec fn pep440_check(input: Seq<char>) -> Result<(), Seq<char>> {
    let s = generic_input(input);
    match first_pos(s, BANG) {
        Some(p) => if p == 0 || !all_digits(s.subrange(0, p)) {
            Err("invalid PEP 440 epoch: "@ + "'"@ + decode_utf8(s.subrange(0, p)) + "'"@)
        } else {
            pep440_release_check(s.subrange(p + 1, s.len() as int), input)
        },
        None => pep440_release_check(s, input),
    }
}

/// Checks that `input` is a PEP 440 version as far as the comparison needs.
pub fn validate_pep440(input: &str) -> (r: Result<(), String>)
    ensures
        agrees_unit(r, pep440_check(input@)),
{
    let s = strip_v(trim(input));
    let b = s.as_bytes();
    let n = b.len();
    proof {
        lemma_first_pos(b@, BANG);
        lemma_str_valid(s);
    }
    let start = match find_byte(b, BANG) {
        Some(p) => {
            proof {
                lemma_cut_around_ascii(b@, p as int);
                assert(b@.subrange(0, 0) =~= seq![]);
            }
            if p == 0 || !all_digits_from(&b[0..p], 0) {
                proof {
                    assert(b@.subrange(0, p as int).subrange(0, p as int) =~= b@.subrange(
                        0,
                        p as int,
                    ));
                }
                let epoch = substr(s, 0, p);
                return Err(with_quoted("invalid PEP 440 epoch: ", epoch));
            }
            proof {
                assert(b@.subrange(0, p as int).subrange(0, p as int) =~= b@.subrange(
                    0,
                    p as int,
                ));
            }
            p + 1
        },
        None => 0,
    };
    let rest = &b[start..n];
    proof {
        lemma_first_pos(rest@, PLUS);
        if start == 0 {
            assert(rest@ =~= b@);
        }
    }
    let end = match find_byte(rest, PLUS) {
        Some(q) => q,
        None => rest.len(),
    };
    proof {
        assert(b@ == generic_input(input@));
        if start > 0 {
            assert(rest@ =~= b@.subrange(start as int, b@.len() as int));
        }
        assert(before_plus(rest@) =~= rest@.subrange(0, end as int));
    }
    if end == 0 {
        return Err(with_quoted("empty PEP 440 version: ", input));
    }
    if !byte_is_digit(rest[0]) {
        return Err(with_quoted("PEP 440 version must start with a digit: ", input));
    }
    Ok(())
}

/// A byte that separates the parts of a local label.
pub open spec fn is_local_sep(c: u8) -> bool {
    c == DOT || c == DASH || c == UNDERSCORE
}

/// A local label with every separator made `.` and its letters lower-case.
pub open spec fn local_key(b: Seq<u8>) -> Seq<u8> {
    Seq::new(
        b.len(),
        |i: int|
            if is_local_sep(b[i]) {
                DOT
            } else {
                lower_byte(b[i])
            },
    )
}

/// A part of a local label that reads as a number.
pub open spec fn is_numeric_part(x: Seq<u8>) -> bool {
    x.len() > 0 && all_digits(x)
}

/// Two digit strings by the numbers they spell: past their leading zeros,
/// the longer is the larger, and at equal length the first differing digit
/// decides.
pub open spec fn digits_order(x: Seq<u8>, y: Seq<u8>) -> Ordering {
    let x1 = x.skip(int_of(zero_run(x)));
    let y1 = y.skip(int_of(zero_run(y)));
    if x1.len() < y1.len() {
        Ordering::Less
    } else if x1.len() > y1.len() {
        Ordering::Greater
    } else {
        lex_order(x1, y1)
    }
}

/// Two parts of local labels: numbers by value, a number above a word,
/// words byte by byte.
pub open spec fn local_part_order(x: Seq<u8>, y: Seq<u8>) -> Ordering {
    if is_numeric_part(x) && is_numeric_part(y) {
        digits_order(x, y)
    } else if is_numeric_part(x) {
        Ordering::Greater
    } else if is_numeric_part(y) {
        Ordering::Less
    } else {
        lex_order(x, y)
    }
}

/// Two local keys part by part; when one runs out first it is the smaller.
pub open spec fn local_parts_order(a: Seq<u8>, b: Seq<u8>) -> Ordering
    decreases a.len() + b.len(),
    via local_parts_order_decreases
{
    let o = local_part_order(head_part(a, DOT), head_part(b, DOT));
    if o != Ordering::Equal {
        o
    } else {
        match (tail_part(a, DOT), tail_part(b, DOT)) {
            (None, None) => Ordering::Equal,
            (None, Some(_)) => Ordering::Less,
            (Some(_), None) => Ordering::Greater,
            (Some(ta), Some(tb)) => local_parts_order(ta, tb),
        }
    }
}

#[via_fn]
proof fn local_parts_order_decreases(a: Seq<u8>, b: Seq<u8>) {
    lemma_tail_part(a, DOT);
    lemma_tail_part(b, DOT);
}

/// The order of two local labels (the bytes after `+`): no label sorts
/// below any label, and two labels compare by their keys.
pub open spec fn local_order(a: Seq<u8>, b: Seq<u8>) -> Ordering {
    if a.len() == 0 && b.len() == 0 {
        Ordering::Equal
    } else if a.len() == 0 {
        Ordering::Less
    } else if b.len() == 0 {
        Ordering::Greater
    } else {
        local_parts_order(local_key(a), local_key(b))
    }
}

/// PEP 440 order: the generic order of the public versions, then the local
/// labels.
pub open spec fn pep440_order(a: ParsedVersion, b: ParsedVersion) -> Ordering {
    let o = parsed_order(a, b);
    if o != Ordering::Equal {
        o
    } else {
        local_order(encode_utf8(a.build@), encode_utf8(b.build@))
    }
}

fn local_key_exec(b: &[u8]) -> (r: Vec<u8>)
    ensures
        r@ == local_key(b@),
{
    let mut out: Vec<u8> = Vec::with_capacity(b.len());
    let mut i: usize = 0;
    while i < b.len()
        invariant
            i <= b@.len(),
            out@ =~= local_key(b@).subrange(0, i as int),
        decreases b.len() - i,
    {
        let c = b[i];
        if c == DOT || c == DASH || c == UNDERSCORE {
            out.push(DOT);
        } else {
            out.push(byte_to_lower(c));
        }
        i += 1;
    }
    assert(out@ =~= local_key(b@));
    out
}

fn digits_order_exec(x: &[u8], y: &[u8]) -> (r: Ordering)
    ensures
        r == digits_order(x@, y@),
{
    let za = zero_run_end(x, 0);
    let zb = zero_run_end(y, 0);
    proof {
        assert(x@.skip(0) =~= x@);
        assert(y@.skip(0) =~= y@);
        lemma_zero_run(x@);
        lemma_zero_run(y@);
    }
    let la = x.len() - za;
    let lb = y.len() - zb;
    if la != lb {
        return order_usize_exec(la, lb);
    }
    proof {
        assert(x@.subrange(ix(za), int_of(x@.len())) =~= x@.skip(ix(za)));
        assert(y@.subrange(ix(zb), int_of(y@.len())) =~= y@.skip(ix(zb)));
    }
    lex_order_exec(&x[za..x.len()], &y[zb..y.len()])
}

fn is_numeric_part_exec(x: &[u8]) -> (r: bool)
    ensures
        r == is_numeric_part(x@),
{
    let d = all_digits_from(x, 0);
    assert(x@.subrange(0, x@.len() as int) =~= x@);
    x.len() > 0 && d
}

fn local_part_order_exec(x: &[u8], y: &[u8]) -> (r: Ordering)
    ensures
        r == local_part_order(x@, y@),
{
    let nx = is_numeric_part_exec(x);
    let ny = is_numeric_part_exec(y);
    if nx && ny {
        digits_order_exec(x, y)
    } else if nx {
        Ordering::Greater
    } else if ny {
        Ordering::Less
    } else {
        lex_order_exec(x, y)
    }
}

fn local_parts_order_exec(a: &[u8], b: &[u8]) -> (r: Ordering)
    ensures
        r == local_parts_order(a@, b@),
    decreases a@.len() + b@.len(),
{
    let (x, ta) = split_head(a);
    let (y, tb) = split_head(b);
    let o = local_part_order_exec(x, y);
    if !is_equal(o) {
        return o;
    }
    proof {
        lemma_tail_part(a@, DOT);
        lemma_tail_part(b@, DOT);
    }
    match (ta, tb) {
        (None, None) => Ordering::Equal,
        (None, Some(_)) => Ordering::Less,
        (Some(_), None) => Ordering::Greater,
        (Some(u), Some(v)) => local_parts_order_exec(u, v),
    }
}

/// The order of two PEP 440 local labels.
pub fn cmp_local(a: &str, b: &str) -> (r: Ordering)
    ensures
        r == local_order(a.spec_bytes(), b.spec_bytes()),
{
    let ab = a.as_bytes();
    let bb = b.as_bytes();
    if ab.len() == 0 && bb.len() == 0 {
        return Ordering::Equal;
    }
    if ab.len() == 0 {
        return Ordering::Less;
    }
    if bb.len() == 0 {
        return Ordering::Greater;
    }
    let ka = local_key_exec(ab);
    let kb = local_key_exec(bb);
    local_parts_order_exec(ka.as_slice(), kb.as_slice())
}

/// PEP 440 order of two parsed versions.
pub fn cmp_pep440(a: &ParsedVersion, b: &ParsedVersion) -> (r: Ordering)
    ensures
        r == pep440_order(*a, *b),
{
    let o = cmp_parsed(a, b);
    if !is_equal(o) {
        return o;
    }
    cmp_local(a.build.as_str(), b.build.as_str())
}

} // verus!
