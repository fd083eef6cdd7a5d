//! The generic comparison of parsed versions: epochs, then segments, with
//! trailing zeros and release aliases ignored.
use std::cmp::Ordering;
use vstd::prelude::*;
use vstd::string::StringSliceAdditionalSpecFns;
use vstd::utf8::*;

use crate::order::{
    flip, lemma_lex_order_antisym, lemma_lex_order_refl, lex_order, lex_order_exec, order_i32,
    order_i32_exec, order_u64, order_u64_exec,
};
use crate::parser::{
    effective_weight, is_release_alias_spec, segs_view, tag_weight, tag_weight_spec, ParsedVersion,
    Seg, SegV,
};
use crate::text::ix;

verus! {

broadcast use vstd::utf8::group_utf8_lib;

/// A segment that may be dropped from the end of a version without changing
/// it: a zero, or a word meaning the release itself.
pub open spec fn is_trailing_noise(s: SegV) -> bool {
    match s {
        SegV::Num(n) => n == 0,
        SegV::Text(t) => is_release_alias_spec(t),
    }
}

/// The length of `s` once trailing noise is dropped.
pub open spec fn normalized_len(s: Seq<SegV>) -> nat
    decreases s.len(),
{
    if s.len() > 0 && is_trailing_noise(s.last()) {
        normalized_len(s.drop_last())
    } else {
        s.len()
    }
}

/// `s` without its trailing zeros and release aliases.
pub open spec fn normalize(s: Seq<SegV>) -> Seq<SegV> {
    s.subrange(0, normalized_len(s) as int)
}

pub proof fn lemma_normalized_len(s: Seq<SegV>)
    ensures
        normalized_len(s) <= s.len(),
    decreases s.len(),
{
    if s.len() > 0 && is_trailing_noise(s.last()) {
        lemma_normalized_len(s.drop_last());
    }
}

pub proof fn lemma_normalize_push(s: Seq<SegV>, x: SegV)
    requires
        is_trailing_noise(x),
    ensures
        normalize(s.push(x)) == normalize(s),
{
    assert(s.push(x).drop_last() =~= s);
    lemma_normalized_len(s);
    assert(s.push(x).subrange(0, normalized_len(s) as int) =~= s.subrange(
        0,
        normalized_len(s) as int,
    ));
}

pub fn is_trailing_noise_exec(s: &Seg) -> (r: bool)
    ensures
        r == is_trailing_noise(s@),
{
    match s {
        Seg::Num(n) => *n == 0,
        Seg::Text(t) => match tag_weight(t.as_str()) {
            Some(w) => w == 30,
            None => false,
        },
    }
}

/// The segments without trailing zeros and trailing release aliases, so that
/// `1.0`, `1.0.0` and `1.0-final` all read as `1`.
pub fn normalized(segs: &[Seg]) -> (r: &[Seg])
    ensures
        segs_view(r@) == normalize(segs_view(segs@)),
{
    let ghost sv = segs_view(segs@);
    let mut end = segs.len();
    assert(sv.subrange(0, end as int) =~= sv);
    while end > 0 && is_trailing_noise_exec(&segs[end - 1])
        invariant
            end <= segs@.len(),
            sv == segs_view(segs@),
            normalized_len(sv) == normalized_len(sv.subrange(0, end as int)),
        decreases end,
    {
        assert(sv.subrange(0, end as int).drop_last() =~= sv.subrange(0, end - 1));
        end -= 1;
    }
    let r = &segs[0..end];
    proof {
        let t = sv.subrange(0, end as int);
        if end > 0 {
            assert(t.last() == segs@[end - 1]@);
        }
        assert(normalized_len(t) == end);
        assert(segs_view(r@) =~= normalize(sv));
    }
    r
}

/// The order of two segments at the same position: numbers by value, known
/// words by weight (unknown words weigh 29, and two unknown words go by their
/// bytes), and a number after any word.
pub open spec fn seg_order(a: SegV, b: SegV) -> Ordering {
    match (a, b) {
        (SegV::Num(x), SegV::Num(y)) => order_u64(x, y),
        (SegV::Text(x), SegV::Text(y)) => match (tag_weight_spec(x), tag_weight_spec(y)) {
            (Some(wa), Some(wb)) => order_i32(wa, wb),
            (Some(wa), None) => order_i32(wa, 29),
            (None, Some(wb)) => order_i32(29, wb),
            (None, None) => lex_order(encode_utf8(x), encode_utf8(y)),
        },
        (SegV::Num(_), SegV::Text(_)) => Ordering::Greater,
        (SegV::Text(_), SegV::Num(_)) => Ordering::Less,
    }
}

/// How a version that has run out of segments compares with one that still
/// has `b`: `None` when `b` is a zero (look further), `Less` when `b` is a
/// non-zero number or a release or post-release word, `Greater` when `b` is a
/// pre-release word.
pub open spec fn missing_vs(b: SegV) -> Option<Ordering> {
    match b {
        SegV::Num(v) => if v == 0 {
            None
        } else {
            Some(Ordering::Less)
        },
        SegV::Text(t) => if effective_weight(t) < 30 {
            Some(Ordering::Greater)
        } else {
            Some(Ordering::Less)
        },
    }
}

pub open spec fn max_len(l: Seq<SegV>, r: Seq<SegV>) -> int {
    if l.len() >= r.len() {
        l.len() as int
    } else {
        r.len() as int
    }
}

/// The order of two segment lists from position `i` on.
pub open spec fn seg_order_from(l: Seq<SegV>, r: Seq<SegV>, i: int) -> Ordering
    decreases max_len(l, r) - i,
{
    if i < 0 || (i >= l.len() && i >= r.len()) {
        Ordering::Equal
    } else if i >= l.len() {
        match missing_vs(r[i]) {
            None => seg_order_from(l, r, i + 1),
            Some(o) => o,
        }
    } else if i >= r.len() {
        match missing_vs(l[i]) {
            None => seg_order_from(l, r, i + 1),
            Some(o) => flip(o),
        }
    } else if seg_order(l[i], r[i]) != Ordering::Equal {
        seg_order(l[i], r[i])
    } else {
        seg_order_from(l, r, i + 1)
    }
}

/// The order of two segment lists, once both are normalized.
pub open spec fn segments_order(l: Seq<SegV>, r: Seq<SegV>) -> Ordering {
    seg_order_from(normalize(l), normalize(r), 0)
}

/// The generic order of two versions: epoch first, then segments.
pub open spec fn generic_order(ea: u64, sa: Seq<SegV>, eb: u64, sb: Seq<SegV>) -> Ordering {
    if ea != eb {
        order_u64(ea, eb)
    } else {
        segments_order(sa, sb)
    }
}

pub open spec fn parsed_order(a: ParsedVersion, b: ParsedVersion) -> Ordering {
    generic_order(a.epoch, segs_view(a.segments@), b.epoch, segs_view(b.segments@))
}

pub fn text_effective_weight(s: &str) -> (r: i32)
    ensures
        r == effective_weight(s@),
{
    match tag_weight(s) {
        Some(w) => w,
        None => 29,
    }
}

pub fn cmp_two(a: &Seg, b: &Seg) -> (r: Ordering)
    ensures
        r == seg_order(a@, b@),
{
    match (a, b) {
        (Seg::Num(x), Seg::Num(y)) => order_u64_exec(*x, *y),
        (Seg::Text(x), Seg::Text(y)) => {
            let wx = tag_weight(x.as_str());
            let wy = tag_weight(y.as_str());
            match (wx, wy) {
                (Some(wa), Some(wb)) => order_i32_exec(wa, wb),
                (Some(wa), None) => order_i32_exec(wa, 29),
                (None, Some(wb)) => order_i32_exec(29, wb),
                (None, None) => lex_order_exec(x.as_str().as_bytes(), y.as_str().as_bytes()),
            }
        },
        (Seg::Num(_), Seg::Text(_)) => Ordering::Greater,
        (Seg::Text(_), Seg::Num(_)) => Ordering::Less,
    }
}

/// How a list that has run out compares with one that still has `b`.
fn missing_vs_exec(b: &Seg) -> (r: Option<Ordering>)
    ensures
        r == missing_vs(b@),
{
    match b {
        Seg::Num(v) => if *v == 0 {
            None
        } else {
            Some(Ordering::Less)
        },
        Seg::Text(t) => if text_effective_weight(t.as_str()) < 30 {
            Some(Ordering::Greater)
        } else {
            Some(Ordering::Less)
        },
    }
}

/// The generic order of two segment lists.
pub fn cmp_segments(left: &[Seg], right: &[Seg]) -> (r: Ordering)
    ensures
        r == segments_order(segs_view(left@), segs_view(right@)),
{
    let nl = normalized(left);
    let nr = normalized(right);
    let ghost lv = segs_view(nl@);
    let ghost rv = segs_view(nr@);
    let n = if nl.len() >= nr.len() {
        nl.len()
    } else {
        nr.len()
    };
    let mut i: usize = 0;
    while i < n
        invariant
            lv == segs_view(nl@),
            rv == segs_view(nr@),
            n == max_len(lv, rv),
            i <= n,
            segments_order(segs_view(left@), segs_view(right@)) == seg_order_from(lv, rv, ix(i)),
        decreases n - i,
    {
        if i >= nl.len() {
            assert(rv[ix(i)] == nr@[ix(i)]@);
            match missing_vs_exec(&nr[i]) {
                None => {
                    i += 1;
                },
                Some(o) => {
                    return o;
                },
            }
        } else if i >= nr.len() {
            assert(lv[ix(i)] == nl@[ix(i)]@);
            match missing_vs_exec(&nl[i]) {
                None => {
                    i += 1;
                },
                Some(o) => {
                    return flip_ordering(o);
                },
            }
        } else {
            assert(lv[ix(i)] == nl@[ix(i)]@);
            assert(rv[ix(i)] == nr@[ix(i)]@);
            let o = cmp_two(&nl[i], &nr[i]);
            match o {
                Ordering::Equal => {
                    i += 1;
                },
                _ => {
                    return o;
                },
            }
        }
    }
    Ordering::Equal
}

fn flip_ordering(o: Ordering) -> (r: Ordering)
    ensures
        r == flip(o),
{
    crate::order::flip_exec(o)
}

/// The generic order of two parsed versions: by epoch, then by segments.
pub fn cmp_parsed(a: &ParsedVersion, b: &ParsedVersion) -> (r: Ordering)
    ensures
        r == parsed_order(*a, *b),
{
    if a.epoch != b.epoch {
        order_u64_exec(a.epoch, b.epoch)
    } else {
        cmp_segments(a.segments.as_slice(), b.segments.as_slice())
    }
}

// ---------------------------------------------------------------------------
// Laws
// ---------------------------------------------------------------------------

pub proof fn lemma_seg_order_antisym(a: SegV, b: SegV)
    ensures
        seg_order(b, a) == flip(seg_order(a, b)),
{
    match (a, b) {
        (SegV::Text(x), SegV::Text(y)) => {
            lemma_lex_order_antisym(encode_utf8(x), encode_utf8(y));
        },
        _ => {},
    }
}

pub proof fn lemma_seg_order_refl(a: SegV)
    ensures
        seg_order(a, a) == Ordering::Equal,
{
    match a {
        SegV::Text(x) => {
            lemma_lex_order_refl(encode_utf8(x));
        },
        _ => {},
    }
}

proof fn lemma_seg_order_from_antisym(l: Seq<SegV>, r: Seq<SegV>, i: int)
    ensures
        seg_order_from(r, l, i) == flip(seg_order_from(l, r, i)),
    decreases max_len(l, r) - i,
{
    if i < 0 || (i >= l.len() && i >= r.len()) {
    } else if i >= l.len() {
        lemma_seg_order_from_antisym(l, r, i + 1);
    } else if i >= r.len() {
        lemma_seg_order_from_antisym(l, r, i + 1);
    } else {
        lemma_seg_order_antisym(l[i], r[i]);
        lemma_seg_order_from_antisym(l, r, i + 1);
    }
}

proof fn lemma_seg_order_from_refl(l: Seq<SegV>, i: int)
    ensures
        seg_order_from(l, l, i) == Ordering::Equal,
    decreases l.len() - i,
{
    if 0 <= i < l.len() {
        lemma_seg_order_refl(l[i]);
        lemma_seg_order_from_refl(l, i + 1);
    }
}

/// The generic order is antisymmetric: comparing `b` with `a` gives the
/// opposite of comparing `a` with `b`.
pub proof fn law_generic_order_antisymmetric(ea: u64, sa: Seq<SegV>, eb: u64, sb: Seq<SegV>)
    ensures
        generic_order(eb, sb, ea, sa) == flip(generic_order(ea, sa, eb, sb)),
{
    lemma_seg_order_from_antisym(normalize(sa), normalize(sb), 0);
}

/// Every version equals itself under the generic order.
pub proof fn law_generic_order_reflexive(e: u64, s: Seq<SegV>)
    ensures
        generic_order(e, s, e, s) == Ordering::Equal,
{
    lemma_seg_order_from_refl(normalize(s), 0);
}

/// Trailing zeros and release aliases do not change a version: `1.0`,
/// `1.0.0` and `1.0-final` are equal.
pub proof fn law_trailing_noise_ignored(s: Seq<SegV>, x: SegV)
    requires
        is_trailing_noise(x),
    ensures
        segments_order(s.push(x), s) == Ordering::Equal,
        segments_order(s, s.push(x)) == Ordering::Equal,
{
    lemma_normalize_push(s, x);
    lemma_seg_order_from_refl(normalize(s), 0);
}

/// A larger epoch makes a larger version, whatever the segments.
pub proof fn law_epoch_dominates(ea: u64, sa: Seq<SegV>, eb: u64, sb: Seq<SegV>)
    requires
        ea > eb,
    ensures
        generic_order(ea, sa, eb, sb) == Ordering::Greater,
{
}

} // verus!
