//! RPM versions: `[epoch:]version[-release]`, compared with `rpmvercmp`
//! (including `~` before and `^` after a release).
use std::cmp::Ordering;
use vstd::prelude::*;
use vstd::string::StringSliceAdditionalSpecFns;
use vstd::utf8::*;

use crate::order::{
    is_equal, lex_order, lex_order_exec, order_u64, order_u64_exec, order_usize_exec,
};
use crate::strategies::debian::{epoch_and_dash_parts, extract_epoch_colon, split_last_dash};
use crate::text::{
    alpha_run, alpha_run_end, byte_is_alnum, byte_is_digit, bytes_equal, digit_run, digit_run_end,
    int_of, is_alnum, is_digit, ix, lemma_alpha_run, lemma_digit_run, lemma_zero_run, trim,
    trimmed_bytes, zero_run, zero_run_end, CARET, TILDE,
};

verus! {

broadcast use vstd::utf8::group_utf8_lib;

#[derive(Debug, Clone)]
pub struct RpmVersion {
    pub epoch: u64,
    pub version: String,
    pub release: String,
}

/// An RPM version: the trimmed input must not be empty.
pub fn parse_rpm(input: &str) -> (r: Result<RpmVersion, String>)
    ensures
        trimmed_bytes(input@).len() == 0 ==> (r matches Err(m) && m@ == "empty RPM version"@),
        trimmed_bytes(input@).len() != 0 ==> (r matches Ok(v) && (v.epoch, encode_utf8(
            v.version@,
        ), encode_utf8(v.release@)) == epoch_and_dash_parts(input@)),
{
    let s = trim(input);
    if s.as_bytes().len() == 0 {
        return Err("empty RPM version".to_owned());
    }
    let (epoch, rest) = extract_epoch_colon(s);
    let (version, release) = split_last_dash(rest);
    Ok(RpmVersion { epoch, version, release })
}

/// A byte `rpmvercmp` steps over: neither alphanumeric nor `~` nor `^`.
pub open spec fn rpm_separator(c: u8) -> bool {
    !is_alnum(c) && c != TILDE && c != CARET
}

/// The number of leading separator bytes of `b`.
pub open spec fn separator_run(b: Seq<u8>) -> nat
    decreases b.len(),
{
    if b.len() > 0 && rpm_separator(b[0]) {
        1 + separator_run(b.drop_first())
    } else {
        0
    }
}

pub proof fn lemma_separator_run(b: Seq<u8>)
    ensures
        separator_run(b) <= b.len(),
        separator_run(b) < b.len() ==> !rpm_separator(b[int_of(separator_run(b))]),
    decreases b.len(),
{
    if b.len() > 0 && rpm_separator(b[0]) {
        lemma_separator_run(b.drop_first());
    }
}

pub open spec fn starts_with_byte(b: Seq<u8>, x: u8) -> bool {
    b.len() > 0 && b[0] == x
}

/// The rest of `rpmvercmp` once leading separators are stepped over.
pub open spec fn rpm_loop(a: Seq<u8>, b: Seq<u8>) -> Ordering
    decreases a.len() + b.len(), 1int,
{
    proof {
        lemma_separator_run(a);
        lemma_separator_run(b);
    }
    rpm_step(a.skip(int_of(separator_run(a))), b.skip(int_of(separator_run(b))))
}

/// One step of `rpmvercmp` on two remainders that start past their
/// separators: `~` sorts before everything (even the end), `^` after the
/// end but before anything else, then runs of digits (by value) or of
/// letters (by bytes), a digit run above a letter run; whichever still has
/// characters at the end is the newer.
pub open spec fn rpm_step(a1: Seq<u8>, b1: Seq<u8>) -> Ordering
    decreases a1.len() + b1.len(), 0int,
{
    if starts_with_byte(a1, TILDE) || starts_with_byte(b1, TILDE) {
        if !starts_with_byte(a1, TILDE) {
            Ordering::Greater
        } else if !starts_with_byte(b1, TILDE) {
            Ordering::Less
        } else {
            rpm_loop(a1.drop_first(), b1.drop_first())
        }
    } else if starts_with_byte(a1, CARET) || starts_with_byte(b1, CARET) {
        if a1.len() == 0 {
            Ordering::Less
        } else if b1.len() == 0 {
            Ordering::Greater
        } else if !starts_with_byte(a1, CARET) {
            Ordering::Greater
        } else if !starts_with_byte(b1, CARET) {
            Ordering::Less
        } else {
            rpm_loop(a1.drop_first(), b1.drop_first())
        }
    } else if a1.len() == 0 || b1.len() == 0 {
        if a1.len() == 0 && b1.len() == 0 {
            Ordering::Equal
        } else if a1.len() > 0 {
            Ordering::Greater
        } else {
            Ordering::Less
        }
    } else {
        let num = is_digit(a1[0]);
        let na = if num {
            digit_run(a1)
        } else {
            alpha_run(a1)
        };
        let nb = if num {
            digit_run(b1)
        } else {
            alpha_run(b1)
        };
        proof {
            lemma_digit_run(a1);
            lemma_digit_run(b1);
            lemma_alpha_run(a1);
            lemma_alpha_run(b1);
        }
        if nb == 0 {
            if num {
                Ordering::Greater
            } else {
                Ordering::Less
            }
        } else if num {
            let x = a1.take(int_of(na));
            let y = b1.take(int_of(nb));
            let x1 = x.skip(int_of(zero_run(x)));
            let y1 = y.skip(int_of(zero_run(y)));
            if x1.len() < y1.len() {
                Ordering::Less
            } else if x1.len() > y1.len() {
                Ordering::Greater
            } else if lex_order(x1, y1) != Ordering::Equal {
                lex_order(x1, y1)
            } else {
                rpm_loop(a1.skip(int_of(na)), b1.skip(int_of(nb)))
            }
        } else if lex_order(a1.take(int_of(na)), b1.take(int_of(nb))) != Ordering::Equal {
            lex_order(a1.take(int_of(na)), b1.take(int_of(nb)))
        } else {
            rpm_loop(a1.skip(int_of(na)), b1.skip(int_of(nb)))
        }
    }
}

/// `rpmvercmp`: equal strings are equal, otherwise [`rpm_loop`].
pub open spec fn rpm_order(a: Seq<u8>, b: Seq<u8>) -> Ordering {
    if a == b {
        Ordering::Equal
    } else {
        rpm_loop(a, b)
    }
}

/// The end of the run of separator bytes that starts at `i`.
fn separator_run_end(b: &[u8], i: usize) -> (r: usize)
    requires
        i <= b@.len(),
    ensures
        r == i + separator_run(b@.skip(ix(i))),
        r <= b@.len(),
{
    let mut j = i;
    while j < b.len() && !byte_is_alnum(b[j]) && b[j] != TILDE && b[j] != CARET
        invariant
            i <= j <= b@.len(),
            separator_run(b@.skip(ix(i))) == (j - i) + separator_run(b@.skip(ix(j))),
        decreases b.len() - j,
    {
        assert(b@.skip(ix(j)).drop_first() =~= b@.skip(j + 1));
        j += 1;
    }
    if j < b.len() {
        assert(b@.skip(ix(j))[0] == b@[ix(j)]);
    }
    j
}

/// One step of `rpmvercmp` from positions `sa` and `sb`, which lie past
/// their separators: the answer, or the positions to go on from.
fn rpm_step_at(ab: &[u8], bb: &[u8], sa: usize, sb: usize) -> (r: (Option<Ordering>, usize, usize))
    requires
        sa <= ab@.len(),
        sb <= bb@.len(),
        sa < ab@.len() ==> !rpm_separator(ab@[ix(sa)]),
    ensures
        match r.0 {
            Some(o) => o == rpm_step(ab@.skip(ix(sa)), bb@.skip(ix(sb))),
            None => {
                &&& sa <= r.1 <= ab@.len()
                &&& sb <= r.2 <= bb@.len()
                &&& sa + sb < r.1 + r.2
                &&& rpm_step(ab@.skip(ix(sa)), bb@.skip(ix(sb))) == rpm_loop(
                    ab@.skip(ix(r.1)),
                    bb@.skip(ix(r.2)),
                )
            },
        },
{
    let n = ab.len();
    let m = bb.len();
    let ghost a1 = ab@.skip(ix(sa));
    let ghost b1 = bb@.skip(ix(sb));
    proof {
        if sa < n {
            assert(a1[0] == ab@[ix(sa)]);
            assert(a1.drop_first() =~= ab@.skip(sa + 1));
        }
        if sb < m {
            assert(b1[0] == bb@[ix(sb)]);
            assert(b1.drop_first() =~= bb@.skip(sb + 1));
        }
    }
    let at = sa < n && ab[sa] == TILDE;
    let bt = sb < m && bb[sb] == TILDE;
    if at || bt {
        if !at {
            return (Some(Ordering::Greater), sa, sb);
        }
        if !bt {
            return (Some(Ordering::Less), sa, sb);
        }
        return (None, sa + 1, sb + 1);
    }
    let ac = sa < n && ab[sa] == CARET;
    let bc = sb < m && bb[sb] == CARET;
    if ac || bc {
        if sa >= n {
            return (Some(Ordering::Less), sa, sb);
        }
        if sb >= m {
            return (Some(Ordering::Greater), sa, sb);
        }
        if !ac {
            return (Some(Ordering::Greater), sa, sb);
        }
        if !bc {
            return (Some(Ordering::Less), sa, sb);
        }
        return (None, sa + 1, sb + 1);
    }
    if sa >= n || sb >= m {
        if sa >= n && sb >= m {
            return (Some(Ordering::Equal), sa, sb);
        } else if sa < n {
            return (Some(Ordering::Greater), sa, sb);
        } else {
            return (Some(Ordering::Less), sa, sb);
        }
    }
    let num = byte_is_digit(ab[sa]);
    let ea = if num {
        digit_run_end(ab, sa)
    } else {
        alpha_run_end(ab, sa)
    };
    let eb = if num {
        digit_run_end(bb, sb)
    } else {
        alpha_run_end(bb, sb)
    };
    proof {
        lemma_digit_run(a1);
        lemma_alpha_run(a1);
    }
    if eb == sb {
        if num {
            return (Some(Ordering::Greater), sa, sb);
        } else {
            return (Some(Ordering::Less), sa, sb);
        }
    }
    proof {
        assert(a1.take(ix(ea) - ix(sa)) =~= ab@.subrange(ix(sa), ix(ea)));
        assert(b1.take(ix(eb) - ix(sb)) =~= bb@.subrange(ix(sb), ix(eb)));
        assert(a1.skip(ix(ea) - ix(sa)) =~= ab@.skip(ix(ea)));
        assert(b1.skip(ix(eb) - ix(sb)) =~= bb@.skip(ix(eb)));
    }
    if num {
        let xa = &ab[sa..ea];
        let yb = &bb[sb..eb];
        let za = zero_run_end(xa, 0);
        let zb = zero_run_end(yb, 0);
        proof {
            assert(xa@.skip(0) =~= xa@);
            assert(yb@.skip(0) =~= yb@);
            lemma_zero_run(xa@);
            lemma_zero_run(yb@);
        }
        let la = xa.len() - za;
        let lb = yb.len() - zb;
        if la != lb {
            return (Some(order_usize_exec(la, lb)), sa, sb);
        }
        let o = lex_order_exec(&xa[za..xa.len()], &yb[zb..yb.len()]);
        proof {
            assert(xa@.subrange(ix(za), int_of(xa@.len())) =~= xa@.skip(ix(za)));
            assert(yb@.subrange(ix(zb), int_of(yb@.len())) =~= yb@.skip(ix(zb)));
        }
        if !is_equal(o) {
            return (Some(o), sa, sb);
        }
    } else {
        let o = lex_order_exec(&ab[sa..ea], &bb[sb..eb]);
        if !is_equal(o) {
            return (Some(o), sa, sb);
        }
    }
    (None, ea, eb)
}

/// RPM's `rpmvercmp` on two strings.
pub fn rpmverscmp(a: &str, b: &str) -> (r: Ordering)
    ensures
        r == rpm_order(a.spec_bytes(), b.spec_bytes()),
{
    let ab = a.as_bytes();
    let bb = b.as_bytes();
    if bytes_equal(ab, bb) {
        return Ordering::Equal;
    }
    let n = ab.len();
    let m = bb.len();
    let mut ia: usize = 0;
    let mut ib: usize = 0;
    assert(ab@.skip(0) =~= ab@);
    assert(bb@.skip(0) =~= bb@);
    loop
        invariant
            ab@ == a.spec_bytes(),
            bb@ == b.spec_bytes(),
            n == ab@.len(),
            m == bb@.len(),
            ia <= n,
            ib <= m,
            rpm_order(ab@, bb@) == rpm_loop(ab@.skip(ix(ia)), bb@.skip(ix(ib))),
        decreases n - ia + m - ib,
    {
        let ghost ra = ab@.skip(ix(ia));
        let ghost rb = bb@.skip(ix(ib));
        let sa = separator_run_end(ab, ia);
        let sb = separator_run_end(bb, ib);
        proof {
            lemma_separator_run(ra);
            lemma_separator_run(rb);
            assert(ra.skip(int_of(separator_run(ra))) =~= ab@.skip(ix(sa)));
            assert(rb.skip(int_of(separator_run(rb))) =~= bb@.skip(ix(sb)));
            if sa < n {
                assert(ab@[ix(sa)] == ra[int_of(separator_run(ra))]);
            }
        }
        let (done, i, j) = rpm_step_at(ab, bb, sa, sb);
        if let Some(o) = done {
            return o;
        }
        ia = i;
        ib = j;
    }
}

/// The RPM order of two versions: epoch, version, then release.
pub open spec fn rpm_version_order(a: RpmVersion, b: RpmVersion) -> Ordering {
    if a.epoch != b.epoch {
        order_u64(a.epoch, b.epoch)
    } else if rpm_order(encode_utf8(a.version@), encode_utf8(b.version@)) != Ordering::Equal {
        rpm_order(encode_utf8(a.version@), encode_utf8(b.version@))
    } else {
        rpm_order(encode_utf8(a.release@), encode_utf8(b.release@))
    }
}

pub fn cmp_rpm(a: &RpmVersion, b: &RpmVersion) -> (r: Ordering)
    ensures
        r == rpm_version_order(*a, *b),
{
    if a.epoch != b.epoch {
        return order_u64_exec(a.epoch, b.epoch);
    }
    let o = rpmverscmp(a.version.as_str(), b.version.as_str());
    if !is_equal(o) {
        return o;
    }
    rpmverscmp(a.release.as_str(), b.release.as_str())
}

} // verus!
