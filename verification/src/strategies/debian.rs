//! Debian (dpkg) versions: `[epoch:]upstream[-revision]`, compared with the
//! `verrevcmp` algorithm of dpkg.
use std::cmp::Ordering;
use vstd::prelude::*;
use vstd::string::StringSliceAdditionalSpecFns;
use vstd::utf8::*;

use crate::order::{
    is_equal, lex_order, lex_order_exec, order_i32, order_i32_exec, order_usize_exec,
};
use crate::text::{
    byte_is_alpha, byte_is_digit, decimal, digit_run, digit_run_end, int_of, is_alpha, is_digit, ix,
    last_pos, lemma_cut_around_ascii, lemma_digit_run, lemma_last_pos, lemma_str_valid,
    lemma_zero_run, parse_u64, rfind_byte, substr, substr_from, trim, trimmed_bytes, zero_run,
    zero_run_end, COLON, DASH, TILDE,
};

verus! {

broadcast use vstd::utf8::group_utf8_lib;

// ---------------------------------------------------------------------------
// Epoch
// ---------------------------------------------------------------------------

/// `b` starts with an epoch: digits that fit a `u64`, then `:`.
pub open spec fn has_colon_epoch(b: Seq<u8>) -> bool {
    let k = digit_run(b) as int;
    &&& 0 < k < b.len()
    &&& b[k] == COLON
    &&& decimal(b.subrange(0, k)) <= u64::MAX
}

pub open spec fn colon_epoch(b: Seq<u8>) -> u64 {
    if has_colon_epoch(b) {
        decimal(b.subrange(0, digit_run(b) as int)) as u64
    } else {
        0
    }
}

pub open spec fn after_colon_epoch(b: Seq<u8>) -> Seq<u8> {
    if has_colon_epoch(b) {
        b.subrange(digit_run(b) as int + 1, b.len() as int)
    } else {
        b
    }
}

/// Splits a leading `N:` epoch off `s`; without one the epoch is 0.
pub fn extract_epoch_colon(s: &str) -> (r: (u64, &str))
    ensures
        r.0 == colon_epoch(s.spec_bytes()),
        r.1.spec_bytes() == after_colon_epoch(s.spec_bytes()),
{
    let b = s.as_bytes();
    let n = b.len();
    let k = digit_run_end(b, 0);
    proof {
        assert(b@.skip(0) =~= b@);
        lemma_digit_run(b@);
        lemma_str_valid(s);
    }
    if k > 0 && k < n && b[k] == COLON {
        proof {
            assert(b@.subrange(0, k as int)[0] == b@[0]);
        }
        match parse_u64(b, 0, k) {
            Some(e) => {
                proof {
                    lemma_cut_around_ascii(b@, k as int);
                }
                return (e, substr_from(s, k + 1));
            },
            None => {},
        }
    }
    (0, s)
}

// ---------------------------------------------------------------------------
// Parsing
// ---------------------------------------------------------------------------

#[derive(Debug, Clone)]
pub struct DebianVersion {
    pub epoch: u64,
    pub upstream: String,
    pub revision: String,
}

/// The part before the last `-`, or all of `b`.
pub open spec fn before_last_dash(b: Seq<u8>) -> Seq<u8> {
    match last_pos(b, DASH) {
        Some(p) => b.subrange(0, p),
        None => b,
    }
}

/// The part after the last `-`, or nothing.
pub open spec fn after_last_dash(b: Seq<u8>) -> Seq<u8> {
    match last_pos(b, DASH) {
        Some(p) => b.subrange(p + 1, b.len() as int),
        None => seq![],
    }
}

/// `[epoch:]rest`, then `rest` split at its last `-`: the parts of a Debian
/// or RPM version.
pub open spec fn epoch_and_dash_parts(input: Seq<char>) -> (u64, Seq<u8>, Seq<u8>) {
    let b = trimmed_bytes(input);
    let rest = after_colon_epoch(b);
    (colon_epoch(b), before_last_dash(rest), after_last_dash(rest))
}

/// Splits `s` at its last `-`.
pub fn split_last_dash(s: &str) -> (r: (String, String))
    ensures
        encode_utf8(r.0@) == before_last_dash(s.spec_bytes()),
        encode_utf8(r.1@) == after_last_dash(s.spec_bytes()),
{
    let b = s.as_bytes();
    proof {
        lemma_last_pos(b@, DASH);
        lemma_str_valid(s);
    }
    let n = b.len();
    match rfind_byte(b, DASH) {
        Some(p) => {
            proof {
                lemma_cut_around_ascii(b@, p as int);
            }
            assert(p < n);
            let head = substr(s, 0, p).to_owned();
            let tail = substr_from(s, p + 1).to_owned();
            (head, tail)
        },
        None => {
            assert(encode_utf8(Seq::<char>::empty()) =~= Seq::<u8>::empty());
            (s.to_owned(), String::new())
        },
    }
}

/// A Debian version: the trimmed input must not be empty.
pub fn parse_debian(input: &str) -> (r: Result<DebianVersion, String>)
    ensures
        trimmed_bytes(input@).len() == 0 ==> (r matches Err(m) && m@ == "empty Debian version"@),
        trimmed_bytes(input@).len() != 0 ==> (r matches Ok(v) && (v.epoch, encode_utf8(
            v.upstream@,
        ), encode_utf8(v.revision@)) == epoch_and_dash_parts(input@)),
{
    let s = trim(input);
    if s.as_bytes().len() == 0 {
        return Err("empty Debian version".to_owned());
    }
    let (epoch, rest) = extract_epoch_colon(s);
    let (upstream, revision) = split_last_dash(rest);
    Ok(DebianVersion { epoch, upstream, revision })
}

// ---------------------------------------------------------------------------
// verrevcmp
// ---------------------------------------------------------------------------

/// The dpkg sort weight of a character: the end of a string and digits weigh
/// 0, `~` weighs -1 (before anything, even the end), letters weigh their
/// code, and other characters their code plus 256 (after all letters).
pub open spec fn dpkg_weight(c: Option<u8>) -> i32 {
    match c {
        None => 0i32,
        Some(x) => if x == TILDE {
            -1i32
        } else if is_digit(x) {
            0i32
        } else if is_alpha(x) {
            x as i32
        } else {
            (x as int + 256) as i32
        },
    }
}

pub fn dpkg_order(c: Option<u8>) -> (r: i32)
    ensures
        r == dpkg_weight(c),
{
    match c {
        None => 0,
        Some(x) => if x == TILDE {
            -1
        } else if byte_is_digit(x) {
            0
        } else if byte_is_alpha(x) {
            x as i32
        } else {
            x as i32 + 256
        },
    }
}

pub open spec fn head_byte(b: Seq<u8>) -> Option<u8> {
    if b.len() > 0 {
        Some(b[0])
    } else {
        None
    }
}

pub open spec fn nondigit_head(b: Seq<u8>) -> bool {
    b.len() > 0 && !is_digit(b[0])
}

/// dpkg's `verrevcmp`: alternately compare non-digit runs character by
/// character by [`dpkg_weight`], then digit runs by numeric value (leading
/// zeros ignored).
pub open spec fn verrev_order(a: Seq<u8>, b: Seq<u8>) -> Ordering
    decreases a.len() + b.len(),
    via verrev_order_decreases
{
    if a.len() == 0 && b.len() == 0 {
        Ordering::Equal
    } else if nondigit_head(a) || nondigit_head(b) {
        let ac = dpkg_weight(head_byte(a));
        let bc = dpkg_weight(head_byte(b));
        if ac != bc {
            order_i32(ac, bc)
        } else {
            verrev_order(a.drop_first(), b.drop_first())
        }
    } else {
        let a1 = a.skip(int_of(zero_run(a)));
        let b1 = b.skip(int_of(zero_run(b)));
        let na = digit_run(a1);
        let nb = digit_run(b1);
        if na != nb {
            if na < nb {
                Ordering::Less
            } else {
                Ordering::Greater
            }
        } else if lex_order(a1.take(int_of(na)), b1.take(int_of(nb))) != Ordering::Equal {
            lex_order(a1.take(int_of(na)), b1.take(int_of(nb)))
        } else {
            verrev_order(a1.skip(int_of(na)), b1.skip(int_of(nb)))
        }
    }
}

#[via_fn]
proof fn verrev_order_decreases(a: Seq<u8>, b: Seq<u8>) {
    lemma_zero_run(a);
    lemma_zero_run(b);
    let a1 = a.skip(zero_run(a) as int);
    let b1 = b.skip(zero_run(b) as int);
    lemma_digit_run(a1);
    lemma_digit_run(b1);
    if a.len() > 0 && is_digit(a[0]) && zero_run(a) == 0 {
        assert(a1[0] == a[0]);
    }
    if b.len() > 0 && is_digit(b[0]) && zero_run(b) == 0 {
        assert(b1[0] == b[0]);
    }
}

/// dpkg's `verrevcmp` on two byte strings.
pub fn verrevcmp(a: &[u8], b: &[u8]) -> (r: Ordering)
    ensures
        r == verrev_order(a@, b@),
{
    let n = a.len();
    let m = b.len();
    let mut ia: usize = 0;
    let mut ib: usize = 0;
    assert(a@.skip(0) =~= a@);
    assert(b@.skip(0) =~= b@);
    loop
        invariant
            n == a@.len(),
            m == b@.len(),
            ia <= n,
            ib <= m,
            verrev_order(a@, b@) == verrev_order(a@.skip(ix(ia)), b@.skip(ix(ib))),
        decreases n - ia + m - ib,
    {
        let ghost ra = a@.skip(ix(ia));
        let ghost rb = b@.skip(ix(ib));
        if ia >= n && ib >= m {
            return Ordering::Equal;
        }
        if ia < n {
            assert(ra[0] == a@[ix(ia)]);
        }
        if ib < m {
            assert(rb[0] == b@[ix(ib)]);
        }
        let a_nd = ia < n && !byte_is_digit(a[ia]);
        let b_nd = ib < m && !byte_is_digit(b[ib]);
        if a_nd || b_nd {
            let ac = dpkg_order(if ia < n { Some(a[ia]) } else { None });
            let bc = dpkg_order(if ib < m { Some(b[ib]) } else { None });
            if ac != bc {
                return order_i32_exec(ac, bc);
            }
            assert(ra.drop_first() =~= a@.skip(ia + 1));
            assert(rb.drop_first() =~= b@.skip(ib + 1));
            ia += 1;
            ib += 1;
        } else {
            let za = zero_run_end(a, ia);
            let zb = zero_run_end(b, ib);
            let ea = digit_run_end(a, za);
            let eb = digit_run_end(b, zb);
            proof {
                assert(ra.skip(int_of(zero_run(ra))) =~= a@.skip(ix(za)));
                assert(rb.skip(int_of(zero_run(rb))) =~= b@.skip(ix(zb)));
                lemma_digit_run(a@.skip(ix(za)));
                lemma_digit_run(b@.skip(ix(zb)));
            }
            let la = ea - za;
            let lb = eb - zb;
            if la != lb {
                return order_usize_exec(la, lb);
            }
            let o = lex_order_exec(&a[za..ea], &b[zb..eb]);
            proof {
                assert(a@.skip(ix(za)).take(ix(la)) =~= a@.subrange(ix(za), ix(ea)));
                assert(b@.skip(ix(zb)).take(ix(lb)) =~= b@.subrange(ix(zb), ix(eb)));
                assert(a@.skip(ix(za)).skip(ix(la)) =~= a@.skip(ix(ea)));
                assert(b@.skip(ix(zb)).skip(ix(lb)) =~= b@.skip(ix(eb)));
            }
            if !is_equal(o) {
                return o;
            }
            ia = ea;
            ib = eb;
        }
    }
}

/// The dpkg order of two Debian versions: epoch, upstream, then revision.
pub open spec fn debian_order(a: DebianVersion, b: DebianVersion) -> Ordering {
    if a.epoch != b.epoch {
        crate::order::order_u64(a.epoch, b.epoch)
    } else if verrev_order(encode_utf8(a.upstream@), encode_utf8(b.upstream@))
        != Ordering::Equal {
        verrev_order(encode_utf8(a.upstream@), encode_utf8(b.upstream@))
    } else {
        verrev_order(encode_utf8(a.revision@), encode_utf8(b.revision@))
    }
}

pub fn cmp_debian(a: &DebianVersion, b: &DebianVersion) -> (r: Ordering)
    ensures
        r == debian_order(*a, *b),
{
    if a.epoch != b.epoch {
        return crate::order::order_u64_exec(a.epoch, b.epoch);
    }
    let o = verrevcmp(a.upstream.as_str().as_bytes(), b.upstream.as_str().as_bytes());
    if !is_equal(o) {
        return o;
    }
    verrevcmp(a.revision.as_str().as_bytes(), b.revision.as_str().as_bytes())
}

} // verus!
