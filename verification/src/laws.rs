//! Laws of the comparisons: each order is antisymmetric (comparing `b`
//! with `a` gives the opposite of comparing `a` with `b`) and reflexive, and
//! what follows for the library's entry points.
use std::cmp::Ordering;
use vstd::prelude::*;
use vstd::string::StringSliceAdditionalSpecFns;
use vstd::utf8::*;

use crate::ordering_sign;
use crate::api::{
    bound_pairs, compare_str_spec, ecosystem_choice, is_auto_name, is_wildcard, num_prefix_from,
    num_prefix_spec, shorthand_spec, tilde_upper, triple_chars,
};
use crate::order::{
    flip, lemma_lex_order_antisym, lemma_lex_order_equal, lemma_lex_order_refl,
    lemma_lex_order_trans, lex_order,
};
use crate::parser::{
    after_epoch, after_plus, alpine_revision, autodetect_spec, before_plus, ecosystem_by_name, epoch_of, generic_input, parsed_from,
    tokens, ecosystem_name, has_epoch, segments_of, segs_view,
    strip_v_bytes, Ecosystem, ParsedVersion,
};
use crate::strategies::{
    parse_agrees, parse_outcome, repr_fits, repr_order, strategy_of, ParsedRepr, Strategy,
};
use crate::strategies::generic::{lemma_seg_order_refl, parsed_order};
use crate::lists::min_choice;
use crate::strategies::debian::{
    debian_order, dpkg_weight, head_byte, nondigit_head, verrev_order, DebianVersion,
};
use crate::strategies::generic::{law_generic_order_antisymmetric, law_generic_order_reflexive};
use crate::strategies::pep440::{
    digits_order, local_order, local_part_order, local_parts_order, pep440_order,
};
use crate::strategies::rpm::{
    lemma_separator_run, rpm_loop, rpm_order, rpm_separator, rpm_step, rpm_version_order,
    separator_run, starts_with_byte, RpmVersion,
};
use crate::strategies::semver::{ident_order, pre_order, semver_order, SemVer};
use crate::text::{
    decimal_chars, alpha_run, digit_run, head_part, int_of, is_digit, ix, lemma_alpha_run, lemma_digit_run,
    lemma_ascii_head, lemma_encode_ascii_byte, lemma_encode_concat, lemma_trim_joined,
    lemma_tail_part, all_digits, all_ascii, ascii_chars, decimal_bytes, is_white_space,
    lemma_ascii_encode, lemma_decimal_bytes, trim_end_chars, trim_start_chars, contains_sub, ends_with, has_byte, matches_at, rfind_sub_from,
    lower_byte, lower_bytes, trim_chars, trimmed_bytes, is_alpha, lemma_zero_run, lower_chars, parse_u64_spec, tail_part, zero_run, DOT,
};
use crate::version::{
    key_segments, lemma_zero_tail_start, sat_i64, seg_key, sort_key_spec, version_new_eco,
    zero_tail_start, version_new_error, version_order,
    Version,
};
use crate::strategies::generic::{
    generic_order, is_trailing_noise, lemma_normalized_len, max_len, normalize, normalized_len,
    seg_order_from,
};
use crate::api::{first_text_from, lemma_first_text_from};
use crate::parser::{
    canon_seg, canonical, has_post_segment, has_pre_segment, law_known_word_weights, seg_is_pre, lemma_alpha_post_weights, lemma_post_word_weights,
    seg_is_post, tag_weight_spec, weight_word, SegV,
};
use crate::strategies::generic::seg_order;

verus! {

broadcast use vstd::utf8::group_utf8_lib;

// ---------------------------------------------------------------------------
// PEP 440 local labels
// ---------------------------------------------------------------------------

proof fn lemma_digits_order_antisym(x: Seq<u8>, y: Seq<u8>)
    ensures
        digits_order(y, x) == flip(digits_order(x, y)),
{
    lemma_lex_order_antisym(x.skip(int_of(zero_run(x))), y.skip(int_of(zero_run(y))));
}

proof fn lemma_local_part_order_antisym(x: Seq<u8>, y: Seq<u8>)
    ensures
        local_part_order(y, x) == flip(local_part_order(x, y)),
{
    lemma_digits_order_antisym(x, y);
    lemma_lex_order_antisym(x, y);
}

proof fn lemma_local_parts_order_antisym(a: Seq<u8>, b: Seq<u8>)
    ensures
        local_parts_order(b, a) == flip(local_parts_order(a, b)),
    decreases a.len() + b.len(),
{
    lemma_tail_part(a, DOT);
    lemma_tail_part(b, DOT);
    lemma_local_part_order_antisym(head_part(a, DOT), head_part(b, DOT));
    if let (Some(ta), Some(tb)) = (tail_part(a, DOT), tail_part(b, DOT)) {
        lemma_local_parts_order_antisym(ta, tb);
    }
}

proof fn lemma_local_parts_order_refl(a: Seq<u8>)
    ensures
        local_parts_order(a, a) == Ordering::Equal,
    decreases a.len(),
{
    lemma_tail_part(a, DOT);
    let h = head_part(a, DOT);
    lemma_lex_order_refl(h);
    lemma_lex_order_refl(h.skip(int_of(zero_run(h))));
    if let Some(ta) = tail_part(a, DOT) {
        lemma_local_parts_order_refl(ta);
    }
}

/// PEP 440 local labels are ordered antisymmetrically.
pub proof fn law_local_order_antisymmetric(a: Seq<u8>, b: Seq<u8>)
    ensures
        local_order(b, a) == flip(local_order(a, b)),
{
    if a.len() > 0 && b.len() > 0 {
        lemma_local_parts_order_antisym(
            crate::strategies::pep440::local_key(a),
            crate::strategies::pep440::local_key(b),
        );
    }
}

/// Every local label equals itself.
pub proof fn law_local_order_reflexive(a: Seq<u8>)
    ensures
        local_order(a, a) == Ordering::Equal,
{
    if a.len() > 0 {
        lemma_local_parts_order_refl(crate::strategies::pep440::local_key(a));
    }
}

// ---------------------------------------------------------------------------
// SemVer
// ---------------------------------------------------------------------------

proof fn lemma_ident_order_antisym(x: Seq<u8>, y: Seq<u8>)
    ensures
        ident_order(y, x) == flip(ident_order(x, y)),
{
    lemma_lex_order_antisym(x, y);
}

proof fn lemma_pre_order_antisym(a: Seq<u8>, b: Seq<u8>)
    ensures
        pre_order(b, a) == flip(pre_order(a, b)),
    decreases a.len() + b.len(),
{
    lemma_tail_part(a, DOT);
    lemma_tail_part(b, DOT);
    lemma_ident_order_antisym(head_part(a, DOT), head_part(b, DOT));
    if let (Some(ta), Some(tb)) = (tail_part(a, DOT), tail_part(b, DOT)) {
        lemma_pre_order_antisym(ta, tb);
    }
}

proof fn lemma_pre_order_refl(a: Seq<u8>)
    ensures
        pre_order(a, a) == Ordering::Equal,
    decreases a.len(),
{
    lemma_tail_part(a, DOT);
    lemma_lex_order_refl(head_part(a, DOT));
    if let Some(ta) = tail_part(a, DOT) {
        lemma_pre_order_refl(ta);
    }
}

/// `a` is at most `c` given `a` at most `b` at most `c`; strictly when
/// either step is strict.
pub open spec fn chains(ab: Ordering, bc: Ordering, ac: Ordering) -> bool {
    ab != Ordering::Greater && bc != Ordering::Greater ==> {
        &&& ac != Ordering::Greater
        &&& (ab == Ordering::Less || bc == Ordering::Less) ==> ac == Ordering::Less
    }
}

proof fn lemma_ident_equal_same(x: Seq<u8>, y: Seq<u8>, z: Seq<u8>)
    requires
        ident_order(x, y) == Ordering::Equal,
    ensures
        ident_order(x, z) == ident_order(y, z),
        ident_order(z, x) == ident_order(z, y),
{
    if parse_u64_spec(x) is None && parse_u64_spec(y) is None {
        lemma_lex_order_equal(x, y);
    }
}

proof fn lemma_ident_trans(x: Seq<u8>, y: Seq<u8>, z: Seq<u8>)
    ensures
        chains(ident_order(x, y), ident_order(y, z), ident_order(x, z)),
{
    if ident_order(x, y) != Ordering::Greater && ident_order(y, z) != Ordering::Greater {
        if parse_u64_spec(x) is None && parse_u64_spec(y) is None && parse_u64_spec(z) is None {
            lemma_lex_order_trans(x, y, z);
        }
    }
}

proof fn lemma_pre_order_trans(a: Seq<u8>, b: Seq<u8>, c: Seq<u8>)
    ensures
        chains(pre_order(a, b), pre_order(b, c), pre_order(a, c)),
    decreases a.len() + b.len() + c.len(),
{
    lemma_tail_part(a, DOT);
    lemma_tail_part(b, DOT);
    lemma_tail_part(c, DOT);
    let (ha, hb, hc) = (head_part(a, DOT), head_part(b, DOT), head_part(c, DOT));
    lemma_ident_trans(ha, hb, hc);
    if ident_order(ha, hb) == Ordering::Equal {
        lemma_ident_equal_same(ha, hb, hc);
    }
    if ident_order(hb, hc) == Ordering::Equal {
        lemma_ident_equal_same(hb, hc, ha);
    }
    if ident_order(ha, hb) == Ordering::Equal && ident_order(hb, hc) == Ordering::Equal {
        if let (Some(ta), Some(tb), Some(tc)) = (
            tail_part(a, DOT),
            tail_part(b, DOT),
            tail_part(c, DOT),
        ) {
            lemma_pre_order_trans(ta, tb, tc);
        }
    }
}

/// SemVer precedence is transitive: `a <= b <= c` gives `a <= c`, strictly
/// when either step is strict.
pub proof fn law_semver_order_transitive(a: SemVer, b: SemVer, c: SemVer)
    ensures
        chains(semver_order(a, b), semver_order(b, c), semver_order(a, c)),
{
    if let (Some(x), Some(y), Some(z)) = (a.pre, b.pre, c.pre) {
        lemma_pre_order_trans(encode_utf8(x@), encode_utf8(y@), encode_utf8(z@));
    }
}

/// SemVer precedence is antisymmetric.
pub proof fn law_semver_order_antisymmetric(a: SemVer, b: SemVer)
    ensures
        semver_order(b, a) == flip(semver_order(a, b)),
{
    if let (Some(x), Some(y)) = (a.pre, b.pre) {
        lemma_pre_order_antisym(encode_utf8(x@), encode_utf8(y@));
    }
}

/// Every SemVer version equals itself.
pub proof fn law_semver_order_reflexive(a: SemVer)
    ensures
        semver_order(a, a) == Ordering::Equal,
{
    if let Some(x) = a.pre {
        lemma_pre_order_refl(encode_utf8(x@));
    }
}

// ---------------------------------------------------------------------------
// Debian
// ---------------------------------------------------------------------------

/// The facts that make the `verrevcmp` recursion shrink.
proof fn lemma_verrev_step(a: Seq<u8>, b: Seq<u8>)
    ensures
        zero_run(a) <= a.len(),
        zero_run(b) <= b.len(),
        digit_run(a.skip(int_of(zero_run(a)))) <= a.len() - zero_run(a),
        digit_run(b.skip(int_of(zero_run(b)))) <= b.len() - zero_run(b),
        a.len() > 0 && is_digit(a[0]) && zero_run(a) == 0 ==> digit_run(
            a.skip(int_of(zero_run(a))),
        ) >= 1,
        b.len() > 0 && is_digit(b[0]) && zero_run(b) == 0 ==> digit_run(
            b.skip(int_of(zero_run(b))),
        ) >= 1,
{
    lemma_zero_run(a);
    lemma_zero_run(b);
    let a1 = a.skip(int_of(zero_run(a)));
    let b1 = b.skip(int_of(zero_run(b)));
    lemma_digit_run(a1);
    lemma_digit_run(b1);
    if a.len() > 0 && is_digit(a[0]) && zero_run(a) == 0 {
        assert(a1[0] == a[0]);
    }
    if b.len() > 0 && is_digit(b[0]) && zero_run(b) == 0 {
        assert(b1[0] == b[0]);
    }
}

/// dpkg's `verrevcmp` is antisymmetric on all byte strings: comparing `b`
/// with `a` gives the opposite of comparing `a` with `b`.
pub proof fn law_verrev_order_antisymmetric(a: Seq<u8>, b: Seq<u8>)
    ensures
        verrev_order(b, a) == flip(verrev_order(a, b)),
    decreases a.len() + b.len(),
{
    lemma_verrev_step(a, b);
    if a.len() == 0 && b.len() == 0 {
    } else if nondigit_head(a) || nondigit_head(b) {
        if dpkg_weight(head_byte(a)) == dpkg_weight(head_byte(b)) {
            law_verrev_order_antisymmetric(a.drop_first(), b.drop_first());
        }
    } else {
        let a1 = a.skip(int_of(zero_run(a)));
        let b1 = b.skip(int_of(zero_run(b)));
        let na = digit_run(a1);
        let nb = digit_run(b1);
        lemma_lex_order_antisym(a1.take(int_of(na)), b1.take(int_of(nb)));
        if na == nb && lex_order(a1.take(int_of(na)), b1.take(int_of(nb))) == Ordering::Equal {
            law_verrev_order_antisymmetric(a1.skip(int_of(na)), b1.skip(int_of(nb)));
        }
    }
}

/// dpkg's `verrevcmp` finds every byte string equal to itself.
pub proof fn law_verrev_order_reflexive(a: Seq<u8>)
    ensures
        verrev_order(a, a) == Ordering::Equal,
    decreases a.len(),
{
    lemma_verrev_step(a, a);
    if a.len() == 0 {
    } else if nondigit_head(a) {
        law_verrev_order_reflexive(a.drop_first());
    } else {
        let a1 = a.skip(int_of(zero_run(a)));
        let na = digit_run(a1);
        lemma_lex_order_refl(a1.take(int_of(na)));
        law_verrev_order_reflexive(a1.skip(int_of(na)));
    }
}

/// The digit key of a remainder that starts with digits: the digits past
/// its leading zeros.
pub open spec fn digit_key(a: Seq<u8>) -> Seq<u8> {
    let a1 = a.skip(int_of(zero_run(a)));
    a1.take(int_of(digit_run(a1)))
}

/// What a remainder is left with past its leading zeros and digits.
pub open spec fn past_digits(a: Seq<u8>) -> Seq<u8> {
    let a1 = a.skip(int_of(zero_run(a)));
    a1.skip(int_of(digit_run(a1)))
}

/// The order of two digit keys: the longer is the larger, then byte by
/// byte.
pub open spec fn key_order(x: Seq<u8>, y: Seq<u8>) -> Ordering {
    if x.len() < y.len() {
        Ordering::Less
    } else if x.len() > y.len() {
        Ordering::Greater
    } else {
        lex_order(x, y)
    }
}

proof fn lemma_key_order(x: Seq<u8>, y: Seq<u8>, z: Seq<u8>)
    ensures
        chains(key_order(x, y), key_order(y, z), key_order(x, z)),
        key_order(x, y) == Ordering::Equal ==> x == y,
{
    lemma_lex_order_equal(x, y);
    if x.len() == y.len() && y.len() == z.len() && lex_order(x, y) != Ordering::Greater
        && lex_order(y, z) != Ordering::Greater {
        lemma_lex_order_trans(x, y, z);
    }
}

/// The digit step of `verrevcmp`, in terms of keys.
proof fn lemma_verrev_digits(a: Seq<u8>, b: Seq<u8>)
    requires
        !(a.len() == 0 && b.len() == 0),
        !nondigit_head(a),
        !nondigit_head(b),
    ensures
        verrev_order(a, b) == if key_order(digit_key(a), digit_key(b)) != Ordering::Equal {
            key_order(digit_key(a), digit_key(b))
        } else {
            verrev_order(past_digits(a), past_digits(b))
        },
        past_digits(a).len() <= a.len(),
        a.len() > 0 ==> past_digits(a).len() < a.len(),
{
    lemma_verrev_step(a, b);
    let a1 = a.skip(int_of(zero_run(a)));
    lemma_digit_run(a1);
}

/// dpkg's `verrevcmp` is transitive on all byte strings: `a <= b <= c`
/// gives `a <= c`, strictly when either step is strict.
pub proof fn law_verrev_order_transitive(a: Seq<u8>, b: Seq<u8>, c: Seq<u8>)
    ensures
        chains(verrev_order(a, b), verrev_order(b, c), verrev_order(a, c)),
    decreases a.len() + b.len() + c.len(),
{
    if a == b {
        law_verrev_order_reflexive(a);
    } else if b == c {
        law_verrev_order_reflexive(b);
    } else if a == c {
        law_verrev_order_antisymmetric(a, b);
        law_verrev_order_reflexive(a);
    } else if nondigit_head(a) || nondigit_head(b) || nondigit_head(c) {
        let (wa, wb, wc) = (
            dpkg_weight(head_byte(a)),
            dpkg_weight(head_byte(b)),
            dpkg_weight(head_byte(c)),
        );
        if wa == wb && wb == wc {
            law_verrev_order_transitive(a.drop_first(), b.drop_first(), c.drop_first());
        }
    } else {
        assert(!(a.len() == 0 && b.len() == 0)) by {
            if a.len() == 0 && b.len() == 0 {
                assert(a =~= b);
            }
        }
        assert(!(b.len() == 0 && c.len() == 0)) by {
            if b.len() == 0 && c.len() == 0 {
                assert(b =~= c);
            }
        }
        assert(!(a.len() == 0 && c.len() == 0)) by {
            if a.len() == 0 && c.len() == 0 {
                assert(a =~= c);
            }
        }
        lemma_verrev_digits(a, b);
        lemma_verrev_digits(b, c);
        lemma_verrev_digits(a, c);
        lemma_verrev_digits(b, a);
        lemma_verrev_digits(c, b);
        let (ka, kb, kc) = (digit_key(a), digit_key(b), digit_key(c));
        lemma_key_order(ka, kb, kc);
        lemma_key_order(kb, kc, ka);
        lemma_key_order(ka, kc, kb);
        if key_order(ka, kb) == Ordering::Equal && key_order(kb, kc) == Ordering::Equal {
            law_verrev_order_transitive(past_digits(a), past_digits(b), past_digits(c));
        }
    }
}

/// The dpkg order is transitive: `a <= b <= c` gives `a <= c`, strictly
/// when either step is strict.
pub proof fn law_debian_order_transitive(a: DebianVersion, b: DebianVersion, c: DebianVersion)
    ensures
        chains(debian_order(a, b), debian_order(b, c), debian_order(a, c)),
{
    let (ua, ub, uc) = (encode_utf8(a.upstream@), encode_utf8(b.upstream@), encode_utf8(c.upstream@));
    let (ra, rb, rc) = (encode_utf8(a.revision@), encode_utf8(b.revision@), encode_utf8(c.revision@));
    law_verrev_order_transitive(ua, ub, uc);
    law_verrev_order_transitive(ra, rb, rc);
    law_verrev_order_antisymmetric(ua, ub);
    law_verrev_order_antisymmetric(ub, uc);
    law_verrev_order_antisymmetric(ua, uc);
    law_verrev_order_transitive(ub, uc, ua);
    law_verrev_order_transitive(uc, ua, ub);
}

/// The dpkg order is antisymmetric.
pub proof fn law_debian_order_antisymmetric(a: DebianVersion, b: DebianVersion)
    ensures
        debian_order(b, a) == flip(debian_order(a, b)),
{
    law_verrev_order_antisymmetric(encode_utf8(a.upstream@), encode_utf8(b.upstream@));
    law_verrev_order_antisymmetric(encode_utf8(a.revision@), encode_utf8(b.revision@));
}

/// Every Debian version equals itself.
pub proof fn law_debian_order_reflexive(a: DebianVersion)
    ensures
        debian_order(a, a) == Ordering::Equal,
{
    law_verrev_order_reflexive(encode_utf8(a.upstream@));
    law_verrev_order_reflexive(encode_utf8(a.revision@));
}

// ---------------------------------------------------------------------------
// RPM
// ---------------------------------------------------------------------------

/// A remainder that starts past its separators.
pub open spec fn past_separators(a: Seq<u8>) -> bool {
    a.len() > 0 ==> !rpm_separator(a[0])
}

proof fn lemma_rpm_loop_antisym(a: Seq<u8>, b: Seq<u8>)
    ensures
        rpm_loop(b, a) == flip(rpm_loop(a, b)),
    decreases a.len() + b.len(), 1int,
{
    lemma_separator_run(a);
    lemma_separator_run(b);
    let a1 = a.skip(int_of(separator_run(a)));
    let b1 = b.skip(int_of(separator_run(b)));
    if a1.len() > 0 {
        assert(a1[0] == a[int_of(separator_run(a))]);
    }
    if b1.len() > 0 {
        assert(b1[0] == b[int_of(separator_run(b))]);
    }
    lemma_rpm_step_antisym(a1, b1);
}

proof fn lemma_rpm_step_antisym(a1: Seq<u8>, b1: Seq<u8>)
    requires
        past_separators(a1),
        past_separators(b1),
    ensures
        rpm_step(b1, a1) == flip(rpm_step(a1, b1)),
    decreases a1.len() + b1.len(), 0int,
{
    lemma_digit_run(a1);
    lemma_digit_run(b1);
    lemma_alpha_run(a1);
    lemma_alpha_run(b1);
    if starts_with_byte(a1, crate::text::TILDE) || starts_with_byte(b1, crate::text::TILDE) {
        if starts_with_byte(a1, crate::text::TILDE) && starts_with_byte(b1, crate::text::TILDE) {
            lemma_rpm_loop_antisym(a1.drop_first(), b1.drop_first());
        }
    } else if starts_with_byte(a1, crate::text::CARET) || starts_with_byte(b1, crate::text::CARET) {
        if a1.len() > 0 && b1.len() > 0 && starts_with_byte(a1, crate::text::CARET)
            && starts_with_byte(b1, crate::text::CARET) {
            lemma_rpm_loop_antisym(a1.drop_first(), b1.drop_first());
        }
    } else if a1.len() == 0 || b1.len() == 0 {
    } else if is_digit(a1[0]) == is_digit(b1[0]) {
        let num = is_digit(a1[0]);
        let na = if num {
            digit_run(a1)
        } else {
            alpha_run(a1)
        };
        let nb = if num {
            digit_run(b1)
        } else {
            alpha_run(b1)
        };
        if num {
            let x = a1.take(int_of(na));
            let y = b1.take(int_of(nb));
            lemma_lex_order_antisym(x.skip(int_of(zero_run(x))), y.skip(int_of(zero_run(y))));
        } else {
            lemma_lex_order_antisym(a1.take(int_of(na)), b1.take(int_of(nb)));
        }
        if na > 0 && nb > 0 {
            lemma_rpm_loop_antisym(a1.skip(int_of(na)), b1.skip(int_of(nb)));
        }
    }
}

/// The kind of a remainder's first token, in the order `rpmvercmp` puts
/// them: `~`, the end, `^`, a run of letters, a run of digits.
pub open spec fn rpm_rank(a: Seq<u8>) -> int {
    if starts_with_byte(a, crate::text::TILDE) {
        0
    } else if a.len() == 0 {
        1
    } else if starts_with_byte(a, crate::text::CARET) {
        2
    } else if is_digit(a[0]) {
        4
    } else {
        3
    }
}

/// The run that a remainder's first token spans.
pub open spec fn rpm_run(a: Seq<u8>) -> int {
    if rpm_rank(a) == 4 {
        int_of(digit_run(a))
    } else if rpm_rank(a) == 3 {
        int_of(alpha_run(a))
    } else {
        1
    }
}

/// The key that two tokens of the same kind compare by.
pub open spec fn rpm_key(a: Seq<u8>) -> Seq<u8> {
    if rpm_rank(a) == 4 {
        let x = a.take(int_of(digit_run(a)));
        x.skip(int_of(zero_run(x)))
    } else if rpm_rank(a) == 3 {
        a.take(int_of(alpha_run(a)))
    } else {
        seq![]
    }
}

/// The order of two keys of tokens of kind `rank`.
pub open spec fn rpm_key_order(rank: int, x: Seq<u8>, y: Seq<u8>) -> Ordering {
    if rank == 4 {
        key_order(x, y)
    } else {
        lex_order(x, y)
    }
}

/// One step of `rpmvercmp` by token kinds: different kinds decide by their
/// order, equal keys go on with the rest.
proof fn lemma_rpm_step_shape(a1: Seq<u8>, b1: Seq<u8>)
    requires
        past_separators(a1),
        past_separators(b1),
    ensures
        rpm_rank(a1) != rpm_rank(b1) ==> rpm_step(a1, b1) == (if rpm_rank(a1) < rpm_rank(b1) {
            Ordering::Less
        } else {
            Ordering::Greater
        }),
        rpm_rank(a1) == rpm_rank(b1) && rpm_rank(a1) == 1 ==> rpm_step(a1, b1) == Ordering::Equal,
        rpm_rank(a1) == rpm_rank(b1) && rpm_rank(a1) != 1 ==> rpm_step(a1, b1) == (
        if rpm_key_order(rpm_rank(a1), rpm_key(a1), rpm_key(b1)) != Ordering::Equal {
            rpm_key_order(rpm_rank(a1), rpm_key(a1), rpm_key(b1))
        } else {
            rpm_loop(a1.skip(rpm_run(a1)), b1.skip(rpm_run(b1)))
        }),
        rpm_rank(a1) != 1 ==> 1 <= rpm_run(a1) <= a1.len(),
{
    lemma_digit_run(a1);
    lemma_digit_run(b1);
    lemma_alpha_run(a1);
    lemma_alpha_run(b1);
    if rpm_rank(a1) == rpm_rank(b1) && (rpm_rank(a1) == 0 || rpm_rank(a1) == 2) {
        lemma_lex_order_refl(seq![]);
        assert(a1.drop_first() =~= a1.skip(1));
        assert(b1.drop_first() =~= b1.skip(1));
    }
}

proof fn lemma_rpm_loop_trans(a: Seq<u8>, b: Seq<u8>, c: Seq<u8>)
    ensures
        chains(rpm_loop(a, b), rpm_loop(b, c), rpm_loop(a, c)),
    decreases a.len() + b.len() + c.len(), 1int,
{
    lemma_separator_run(a);
    lemma_separator_run(b);
    lemma_separator_run(c);
    let a1 = a.skip(int_of(separator_run(a)));
    let b1 = b.skip(int_of(separator_run(b)));
    let c1 = c.skip(int_of(separator_run(c)));
    if a1.len() > 0 {
        assert(a1[0] == a[int_of(separator_run(a))]);
    }
    if b1.len() > 0 {
        assert(b1[0] == b[int_of(separator_run(b))]);
    }
    if c1.len() > 0 {
        assert(c1[0] == c[int_of(separator_run(c))]);
    }
    lemma_rpm_step_trans(a1, b1, c1);
}

proof fn lemma_rpm_step_trans(a1: Seq<u8>, b1: Seq<u8>, c1: Seq<u8>)
    requires
        past_separators(a1),
        past_separators(b1),
        past_separators(c1),
    ensures
        chains(rpm_step(a1, b1), rpm_step(b1, c1), rpm_step(a1, c1)),
    decreases a1.len() + b1.len() + c1.len(), 0int,
{
    lemma_rpm_step_shape(a1, b1);
    lemma_rpm_step_shape(b1, c1);
    lemma_rpm_step_shape(a1, c1);
    lemma_rpm_step_shape(c1, a1);
    let (ra, rb, rc) = (rpm_rank(a1), rpm_rank(b1), rpm_rank(c1));
    if ra == rb && rb == rc && ra != 1 {
        let (ka, kb, kc) = (rpm_key(a1), rpm_key(b1), rpm_key(c1));
        if ra == 4 {
            lemma_key_order(ka, kb, kc);
        } else {
            lemma_lex_order_equal(ka, kb);
            if lex_order(ka, kb) != Ordering::Greater && lex_order(kb, kc) != Ordering::Greater {
                lemma_lex_order_trans(ka, kb, kc);
            }
        }
        lemma_lex_order_equal(kb, kc);
        if rpm_key_order(ra, ka, kb) == Ordering::Equal && rpm_key_order(ra, kb, kc)
            == Ordering::Equal {
            lemma_rpm_loop_trans(a1.skip(rpm_run(a1)), b1.skip(rpm_run(b1)), c1.skip(rpm_run(c1)));
        }
    }
}

/// RPM's `rpmvercmp` is transitive: `a <= b <= c` gives `a <= c`,
/// strictly when either step is strict.
pub proof fn law_rpm_order_transitive(a: Seq<u8>, b: Seq<u8>, c: Seq<u8>)
    ensures
        chains(rpm_order(a, b), rpm_order(b, c), rpm_order(a, c)),
{
    if a == b || b == c {
    } else if a == c {
        law_rpm_order_antisymmetric(a, b);
    } else {
        lemma_rpm_loop_trans(a, b, c);
    }
}

/// RPM's `rpmvercmp` is antisymmetric.
pub proof fn law_rpm_order_antisymmetric(a: Seq<u8>, b: Seq<u8>)
    ensures
        rpm_order(b, a) == flip(rpm_order(a, b)),
{
    if a != b {
        lemma_rpm_loop_antisym(a, b);
    }
}

/// The RPM order of versions is antisymmetric.
pub proof fn law_rpm_version_order_antisymmetric(a: RpmVersion, b: RpmVersion)
    ensures
        rpm_version_order(b, a) == flip(rpm_version_order(a, b)),
{
    law_rpm_order_antisymmetric(encode_utf8(a.version@), encode_utf8(b.version@));
    law_rpm_order_antisymmetric(encode_utf8(a.release@), encode_utf8(b.release@));
}

/// The RPM order of versions is transitive.
pub proof fn law_rpm_version_order_transitive(a: RpmVersion, b: RpmVersion, c: RpmVersion)
    ensures
        chains(rpm_version_order(a, b), rpm_version_order(b, c), rpm_version_order(a, c)),
{
    let (va, vb, vc) = (encode_utf8(a.version@), encode_utf8(b.version@), encode_utf8(c.version@));
    let (ra, rb, rc) = (encode_utf8(a.release@), encode_utf8(b.release@), encode_utf8(c.release@));
    law_rpm_order_transitive(va, vb, vc);
    law_rpm_order_transitive(ra, rb, rc);
    law_rpm_order_antisymmetric(va, vb);
    law_rpm_order_antisymmetric(vb, vc);
    law_rpm_order_antisymmetric(va, vc);
    law_rpm_order_transitive(vb, vc, va);
    law_rpm_order_transitive(vc, va, vb);
}

/// RPM's `rpmvercmp` finds every byte string equal to itself.
pub proof fn law_rpm_order_reflexive(a: Seq<u8>)
    ensures
        rpm_order(a, a) == Ordering::Equal,
{
}

/// Every RPM version equals itself.
pub proof fn law_rpm_version_order_reflexive(a: RpmVersion)
    ensures
        rpm_version_order(a, a) == Ordering::Equal,
{
}

// ---------------------------------------------------------------------------
// All strategies
// ---------------------------------------------------------------------------

/// The PEP 440 order is antisymmetric.
pub proof fn law_pep440_order_antisymmetric(a: ParsedVersion, b: ParsedVersion)
    ensures
        pep440_order(b, a) == flip(pep440_order(a, b)),
{
    law_generic_order_antisymmetric(
        a.epoch,
        segs_view(a.segments@),
        b.epoch,
        segs_view(b.segments@),
    );
    law_local_order_antisymmetric(encode_utf8(a.build@), encode_utf8(b.build@));
}

/// Every version equals itself under the PEP 440 order.
pub proof fn law_pep440_order_reflexive(a: ParsedVersion)
    ensures
        pep440_order(a, a) == Ordering::Equal,
{
    law_generic_order_reflexive(a.epoch, segs_view(a.segments@));
    law_local_order_reflexive(encode_utf8(a.build@));
}

/// Whatever the strategy, comparing `b` with `a` gives the opposite of
/// comparing `a` with `b`.
pub proof fn law_repr_order_antisymmetric(s: Strategy, a: ParsedRepr, b: ParsedRepr)
    ensures
        repr_order(s, b, a) == flip(repr_order(s, a, b)),
{
    reveal(repr_order);
    match (a, b) {
        (ParsedRepr::Generic(x), ParsedRepr::Generic(y)) => {
            law_pep440_order_antisymmetric(x, y);
            law_generic_order_antisymmetric(
                x.epoch,
                segs_view(x.segments@),
                y.epoch,
                segs_view(y.segments@),
            );
        },
        (ParsedRepr::Semver(x), ParsedRepr::Semver(y)) => {
            law_semver_order_antisymmetric(x, y);
        },
        (ParsedRepr::Debian(x), ParsedRepr::Debian(y)) => {
            law_debian_order_antisymmetric(x, y);
        },
        (ParsedRepr::Rpm(x), ParsedRepr::Rpm(y)) => {
            law_rpm_version_order_antisymmetric(x, y);
        },
        _ => {},
    }
}

/// Whatever the strategy, every parsed version equals itself.
pub proof fn law_repr_order_reflexive(s: Strategy, a: ParsedRepr)
    ensures
        repr_order(s, a, a) == Ordering::Equal,
{
    reveal(repr_order);
    match a {
        ParsedRepr::Generic(x) => {
            law_pep440_order_reflexive(x);
            law_generic_order_reflexive(x.epoch, segs_view(x.segments@));
        },
        ParsedRepr::Semver(x) => {
            law_semver_order_reflexive(x);
        },
        ParsedRepr::Debian(x) => {
            law_debian_order_reflexive(x);
        },
        ParsedRepr::Rpm(x) => {
            law_rpm_version_order_reflexive(x);
        },
    }
}

/// The strict strategies (SemVer and Go, Debian, RPM) order versions
/// transitively.
pub proof fn law_repr_order_transitive(s: Strategy, a: ParsedRepr, b: ParsedRepr, c: ParsedRepr)
    requires
        s == Strategy::Semver || s == Strategy::Go || s == Strategy::Debian || s == Strategy::Rpm,
        repr_fits(s, a),
        repr_fits(s, b),
        repr_fits(s, c),
    ensures
        chains(repr_order(s, a, b), repr_order(s, b, c), repr_order(s, a, c)),
{
    reveal(repr_order);
    match (a, b, c) {
        (ParsedRepr::Semver(x), ParsedRepr::Semver(y), ParsedRepr::Semver(z)) => {
            law_semver_order_transitive(x, y, z);
        },
        (ParsedRepr::Debian(x), ParsedRepr::Debian(y), ParsedRepr::Debian(z)) => {
            law_debian_order_transitive(x, y, z);
        },
        (ParsedRepr::Rpm(x), ParsedRepr::Rpm(y), ParsedRepr::Rpm(z)) => {
            law_rpm_version_order_transitive(x, y, z);
        },
        _ => {},
    }
}

/// The -1/0/1 result of a comparison changes sign when the sides swap.
pub proof fn law_compare_sign_antisymmetric(s: Strategy, a: ParsedRepr, b: ParsedRepr)
    ensures
        ordering_sign(repr_order(s, b, a)) == -ordering_sign(repr_order(s, a, b)),
{
    law_repr_order_antisymmetric(s, a, b);
}

proof fn lemma_outcomes_antisym(s: Strategy, a: Seq<char>, b: Seq<char>)
    requires
        parse_outcome(s, a) is Ok,
        parse_outcome(s, b) is Ok,
    ensures
        repr_order(s, parse_outcome(s, b)->Ok_0, parse_outcome(s, a)->Ok_0) == flip(
            repr_order(s, parse_outcome(s, a)->Ok_0, parse_outcome(s, b)->Ok_0),
        ),
{
    law_repr_order_antisymmetric(s, parse_outcome(s, a)->Ok_0, parse_outcome(s, b)->Ok_0);
}

/// With a named ecosystem, comparing two version strings either way fails
/// or succeeds together, and when it succeeds the orders are opposite.
pub proof fn law_compare_str_antisymmetric(a: Seq<char>, b: Seq<char>, name: Seq<char>)
    requires
        !is_auto_name(name),
    ensures
        (compare_str_spec(a, b, name) is Ok) == (compare_str_spec(b, a, name) is Ok),
        compare_str_spec(a, b, name) matches Ok(o) ==> compare_str_spec(b, a, name) == Ok::<
            Ordering,
            Seq<char>,
        >(flip(o)),
{
    reveal(compare_str_spec);
    assert(ecosystem_choice(name, b) == ecosystem_choice(name, a));
    if let Ok(e) = ecosystem_choice(name, a) {
        let s = strategy_of(e);
        if parse_outcome(s, a) is Ok && parse_outcome(s, b) is Ok {
            lemma_outcomes_antisym(s, a, b);
        }
    }
}

/// Version objects compare antisymmetrically.
pub proof fn law_version_order_antisymmetric(a: Version, b: Version)
    ensures
        version_order(b, a) == flip(version_order(a, b)),
{
    if a.eco == b.eco {
        law_repr_order_antisymmetric(strategy_of(a.eco), a.repr, b.repr);
    }
    law_generic_order_antisymmetric(
        a.inner.epoch,
        segs_view(a.inner.segments@),
        b.inner.epoch,
        segs_view(b.inner.segments@),
    );
}

// ---------------------------------------------------------------------------
// Sorting and reconstruction
// ---------------------------------------------------------------------------

/// Under a strict strategy, a list that `sort_versions` ordered is in order
/// throughout: no item is greater than any later one.
pub proof fn law_sorted_is_ordered(
    s: Strategy,
    reprs: Seq<ParsedRepr>,
    w: Seq<usize>,
    k: int,
    l: int,
)
    requires
        s == Strategy::Semver || s == Strategy::Go || s == Strategy::Debian || s == Strategy::Rpm,
        forall|i: int| 0 <= i < reprs.len() ==> repr_fits(s, #[trigger] reprs[i]),
        crate::lists::is_permutation(w, int_of(reprs.len())),
        crate::lists::sorted_by(s, reprs, w),
        0 <= k < l < w.len(),
    ensures
        repr_order(s, reprs[ix(w[k])], reprs[ix(w[l])]) != Ordering::Greater,
    decreases l - k,
{
    reveal(crate::lists::is_permutation);
    assert(crate::lists::pair_in_order(s, reprs, w, l - 1));
    if k < l - 1 {
        law_sorted_is_ordered(s, reprs, w, k, l - 1);
        law_repr_order_transitive(s, reprs[ix(w[k])], reprs[ix(w[l - 1])], reprs[ix(w[l])]);
    }
}

/// The canonical names are lower-case, name their own ecosystem, and are
/// not `auto`.
proof fn lemma_canonical_names(e: Ecosystem)
    ensures
        lower_chars(ecosystem_name(e)) == ecosystem_name(e),
        ecosystem_by_name(ecosystem_name(e)) == Some(e),
        ecosystem_name(e) != "auto"@,
{
    reveal_strlit("generic");
    reveal_strlit("semver");
    reveal_strlit("semver_strict");
    reveal_strlit("semver-strict");
    reveal_strlit("pep440");
    reveal_strlit("pep-440");
    reveal_strlit("python");
    reveal_strlit("debian");
    reveal_strlit("dpkg");
    reveal_strlit("deb");
    reveal_strlit("rpm");
    reveal_strlit("redhat");
    reveal_strlit("ruby");
    reveal_strlit("gem");
    reveal_strlit("rubygems");
    reveal_strlit("maven");
    reveal_strlit("mvn");
    reveal_strlit("go");
    reveal_strlit("golang");
    reveal_strlit("npm");
    reveal_strlit("node");
    reveal_strlit("nodejs");
    reveal_strlit("nuget");
    reveal_strlit("dotnet");
    reveal_strlit("composer");
    reveal_strlit("packagist");
    reveal_strlit("php");
    reveal_strlit("crates");
    reveal_strlit("cargo");
    reveal_strlit("crates.io");
    reveal_strlit("hex");
    reveal_strlit("elixir");
    reveal_strlit("erlang");
    reveal_strlit("swift");
    reveal_strlit("swiftpm");
    reveal_strlit("calver");
    reveal_strlit("alpine");
    reveal_strlit("apk");
    reveal_strlit("docker");
    reveal_strlit("oci");
    reveal_strlit("auto");
    let n = ecosystem_name(e);
    assert(lower_chars(n) =~= n);
    match e {
        Ecosystem::Generic => {},
        Ecosystem::Semver => {},
        Ecosystem::Pep440 => {
            assert("pep440"@ != "semver"@) by { assert("pep440"@[0] == 'p' && "semver"@[0] == 's'); }
        },
        Ecosystem::Debian => {
            assert("debian"@ != "semver"@) by { assert("debian"@[0] == 'd' && "semver"@[0] == 's'); }
            assert("debian"@ != "pep440"@) by { assert("debian"@[0] == 'd' && "pep440"@[0] == 'p'); }
            assert("debian"@ != "python"@) by { assert("debian"@[0] == 'd' && "python"@[0] == 'p'); }
        },
        Ecosystem::Rpm => {
            assert("rpm"@ != "deb"@) by { assert("rpm"@[0] == 'r' && "deb"@[0] == 'd'); }
        },
        Ecosystem::Ruby => {
            assert("ruby"@ != "dpkg"@) by { assert("ruby"@[0] == 'r' && "dpkg"@[0] == 'd'); }
            assert("ruby"@ != "auto"@) by { assert("ruby"@[0] == 'r' && "auto"@[0] == 'a'); }
        },
        Ecosystem::Maven => {},
        Ecosystem::Go => {},
        Ecosystem::Npm => {
            assert("npm"@ != "deb"@) by { assert("npm"@[0] == 'n' && "deb"@[0] == 'd'); }
            assert("npm"@ != "rpm"@) by { assert("npm"@[0] == 'n' && "rpm"@[0] == 'r'); }
            assert("npm"@ != "gem"@) by { assert("npm"@[0] == 'n' && "gem"@[0] == 'g'); }
            assert("npm"@ != "mvn"@) by { assert("npm"@[0] == 'n' && "mvn"@[0] == 'm'); }
        },
        Ecosystem::Nuget => {
            assert("nuget"@ != "maven"@) by { assert("nuget"@[0] == 'n' && "maven"@[0] == 'm'); }
        },
        Ecosystem::Composer => {
            assert("composer"@ != "rubygems"@) by { assert("composer"@[0] == 'c' && "rubygems"@[0] == 'r'); }
        },
        Ecosystem::Crates => {
            assert("crates"@ != "semver"@) by { assert("crates"@[0] == 'c' && "semver"@[0] == 's'); }
            assert("crates"@ != "pep440"@) by { assert("crates"@[0] == 'c' && "pep440"@[0] == 'p'); }
            assert("crates"@ != "python"@) by { assert("crates"@[0] == 'c' && "python"@[0] == 'p'); }
            assert("crates"@ != "debian"@) by { assert("crates"@[0] == 'c' && "debian"@[0] == 'd'); }
            assert("crates"@ != "redhat"@) by { assert("crates"@[0] == 'c' && "redhat"@[0] == 'r'); }
            assert("crates"@ != "golang"@) by { assert("crates"@[0] == 'c' && "golang"@[0] == 'g'); }
            assert("crates"@ != "nodejs"@) by { assert("crates"@[0] == 'c' && "nodejs"@[0] == 'n'); }
            assert("crates"@ != "dotnet"@) by { assert("crates"@[0] == 'c' && "dotnet"@[0] == 'd'); }
        },
        Ecosystem::Hex => {
            assert("hex"@ != "deb"@) by { assert("hex"@[0] == 'h' && "deb"@[0] == 'd'); }
            assert("hex"@ != "rpm"@) by { assert("hex"@[0] == 'h' && "rpm"@[0] == 'r'); }
            assert("hex"@ != "gem"@) by { assert("hex"@[0] == 'h' && "gem"@[0] == 'g'); }
            assert("hex"@ != "mvn"@) by { assert("hex"@[0] == 'h' && "mvn"@[0] == 'm'); }
            assert("hex"@ != "npm"@) by { assert("hex"@[0] == 'h' && "npm"@[0] == 'n'); }
            assert("hex"@ != "php"@) by { assert("hex"@[0] == 'h' && "php"@[0] == 'p'); }
        },
        Ecosystem::Swift => {
            assert("swift"@ != "maven"@) by { assert("swift"@[0] == 's' && "maven"@[0] == 'm'); }
            assert("swift"@ != "nuget"@) by { assert("swift"@[0] == 's' && "nuget"@[0] == 'n'); }
            assert("swift"@ != "cargo"@) by { assert("swift"@[0] == 's' && "cargo"@[0] == 'c'); }
        },
        Ecosystem::Calver => {
            assert("calver"@ != "semver"@) by { assert("calver"@[0] == 'c' && "semver"@[0] == 's'); }
            assert("calver"@ != "pep440"@) by { assert("calver"@[0] == 'c' && "pep440"@[0] == 'p'); }
            assert("calver"@ != "python"@) by { assert("calver"@[0] == 'c' && "python"@[0] == 'p'); }
            assert("calver"@ != "debian"@) by { assert("calver"@[0] == 'c' && "debian"@[0] == 'd'); }
            assert("calver"@ != "redhat"@) by { assert("calver"@[0] == 'c' && "redhat"@[0] == 'r'); }
            assert("calver"@ != "golang"@) by { assert("calver"@[0] == 'c' && "golang"@[0] == 'g'); }
            assert("calver"@ != "nodejs"@) by { assert("calver"@[0] == 'c' && "nodejs"@[0] == 'n'); }
            assert("calver"@ != "dotnet"@) by { assert("calver"@[0] == 'c' && "dotnet"@[0] == 'd'); }
            assert("calver"@ != "crates"@) by { assert("calver"@[1] == 'a' && "crates"@[1] == 'r'); }
            assert("calver"@ != "elixir"@) by { assert("calver"@[0] == 'c' && "elixir"@[0] == 'e'); }
            assert("calver"@ != "erlang"@) by { assert("calver"@[0] == 'c' && "erlang"@[0] == 'e'); }
        },
        Ecosystem::Alpine => {
            assert("alpine"@ != "semver"@) by { assert("alpine"@[0] == 'a' && "semver"@[0] == 's'); }
            assert("alpine"@ != "pep440"@) by { assert("alpine"@[0] == 'a' && "pep440"@[0] == 'p'); }
            assert("alpine"@ != "python"@) by { assert("alpine"@[0] == 'a' && "python"@[0] == 'p'); }
            assert("alpine"@ != "debian"@) by { assert("alpine"@[0] == 'a' && "debian"@[0] == 'd'); }
            assert("alpine"@ != "redhat"@) by { assert("alpine"@[0] == 'a' && "redhat"@[0] == 'r'); }
            assert("alpine"@ != "golang"@) by { assert("alpine"@[0] == 'a' && "golang"@[0] == 'g'); }
            assert("alpine"@ != "nodejs"@) by { assert("alpine"@[0] == 'a' && "nodejs"@[0] == 'n'); }
            assert("alpine"@ != "dotnet"@) by { assert("alpine"@[0] == 'a' && "dotnet"@[0] == 'd'); }
            assert("alpine"@ != "crates"@) by { assert("alpine"@[0] == 'a' && "crates"@[0] == 'c'); }
            assert("alpine"@ != "elixir"@) by { assert("alpine"@[0] == 'a' && "elixir"@[0] == 'e'); }
            assert("alpine"@ != "erlang"@) by { assert("alpine"@[0] == 'a' && "erlang"@[0] == 'e'); }
            assert("alpine"@ != "calver"@) by { assert("alpine"@[0] == 'a' && "calver"@[0] == 'c'); }
        },
        Ecosystem::Docker => {
            assert("docker"@ != "semver"@) by { assert("docker"@[0] == 'd' && "semver"@[0] == 's'); }
            assert("docker"@ != "pep440"@) by { assert("docker"@[0] == 'd' && "pep440"@[0] == 'p'); }
            assert("docker"@ != "python"@) by { assert("docker"@[0] == 'd' && "python"@[0] == 'p'); }
            assert("docker"@ != "debian"@) by { assert("docker"@[1] == 'o' && "debian"@[1] == 'e'); }
            assert("docker"@ != "redhat"@) by { assert("docker"@[0] == 'd' && "redhat"@[0] == 'r'); }
            assert("docker"@ != "golang"@) by { assert("docker"@[0] == 'd' && "golang"@[0] == 'g'); }
            assert("docker"@ != "nodejs"@) by { assert("docker"@[0] == 'd' && "nodejs"@[0] == 'n'); }
            assert("docker"@ != "dotnet"@) by { assert("docker"@[2] == 'c' && "dotnet"@[2] == 't'); }
            assert("docker"@ != "crates"@) by { assert("docker"@[0] == 'd' && "crates"@[0] == 'c'); }
            assert("docker"@ != "elixir"@) by { assert("docker"@[0] == 'd' && "elixir"@[0] == 'e'); }
            assert("docker"@ != "erlang"@) by { assert("docker"@[0] == 'd' && "erlang"@[0] == 'e'); }
            assert("docker"@ != "calver"@) by { assert("docker"@[0] == 'd' && "calver"@[0] == 'c'); }
            assert("docker"@ != "alpine"@) by { assert("docker"@[0] == 'd' && "alpine"@[0] == 'a'); }
        },
    }
}

/// A version object is rebuilt from its text and the name of its
/// ecosystem (as pickling and `to_dict` do): no error, and the same
/// ecosystem.
pub proof fn law_version_rebuilt(v: Version)
    requires
        v.wf(),
    ensures
        version_new_error(v.inner.raw@, ecosystem_name(v.eco)) is None,
        version_new_eco(v.inner.raw@, ecosystem_name(v.eco)) == v.eco,
{
    lemma_canonical_names(v.eco);
    crate::strategies::lemma_parse_outcome(strategy_of(v.eco), v.inner.raw@, Ok(v.repr));
}

// ---------------------------------------------------------------------------
// Sort keys
// ---------------------------------------------------------------------------

/// The order of two words by their characters; a proper prefix comes first.
pub open spec fn char_lex_order(a: Seq<char>, b: Seq<char>) -> Ordering
    decreases a.len(),
{
    if a.len() == 0 && b.len() == 0 {
        Ordering::Equal
    } else if a.len() == 0 {
        Ordering::Less
    } else if b.len() == 0 {
        Ordering::Greater
    } else if a[0] < b[0] {
        Ordering::Less
    } else if a[0] > b[0] {
        Ordering::Greater
    } else {
        char_lex_order(a.drop_first(), b.drop_first())
    }
}

/// The order of two sort-key entries, as tuples compare: the first number,
/// then the second, then the word.
pub open spec fn key_entry_order(x: (i64, i64, Seq<char>), y: (i64, i64, Seq<char>)) -> Ordering {
    if x.0 < y.0 {
        Ordering::Less
    } else if x.0 > y.0 {
        Ordering::Greater
    } else if x.1 < y.1 {
        Ordering::Less
    } else if x.1 > y.1 {
        Ordering::Greater
    } else {
        char_lex_order(x.2, y.2)
    }
}

/// The order of two sort keys, as tuples of tuples compare: entry by entry,
/// a proper prefix first.
pub open spec fn key_seq_order(a: Seq<(i64, i64, Seq<char>)>, b: Seq<(i64, i64, Seq<char>)>) -> Ordering
    decreases a.len(),
{
    if a.len() == 0 && b.len() == 0 {
        Ordering::Equal
    } else if a.len() == 0 {
        Ordering::Less
    } else if b.len() == 0 {
        Ordering::Greater
    } else if key_entry_order(a[0], b[0]) != Ordering::Equal {
        key_entry_order(a[0], b[0])
    } else {
        key_seq_order(a.drop_first(), b.drop_first())
    }
}

/// A segment that a sort key holds exactly: a number no larger than
/// `i64::MAX`, or a word of ASCII characters.
pub open spec fn key_exact(x: SegV) -> bool {
    match x {
        SegV::Num(n) => n <= i64::MAX,
        SegV::Text(t) => is_ascii_chars(t),
    }
}

/// Segments that sort keys order as the generic comparison does: each held
/// exactly by its key entry, and no zero directly before a word.
pub open spec fn key_faithful(s: Seq<SegV>) -> bool {
    &&& forall|i: int| 0 <= i < s.len() ==> key_exact(#[trigger] s[i])
    &&& forall|i: int| 0 < i < s.len() && (#[trigger] s[i] is Text) ==> s[i - 1] != SegV::Num(0)
}

/// The entries after the epoch in the sort key of normalized segments `l`
/// that have no zero before their first word.
pub open spec fn key_tail(l: Seq<SegV>) -> Seq<(i64, i64, Seq<char>)> {
    l.map_values(|x: SegV| seg_key(x)) + seq![(1i64, 30i64, ""@)]
}

proof fn lemma_no_trailing_zero(s: Seq<SegV>)
    ensures
        normalized_len(s) > 0 ==> !is_trailing_noise(s[normalized_len(s) - 1]),
    decreases s.len(),
{
    lemma_normalized_len(s);
    if s.len() > 0 && is_trailing_noise(s.last()) {
        lemma_no_trailing_zero(s.drop_last());
        lemma_normalized_len(s.drop_last());
        if normalized_len(s) > 0 {
            assert(s.drop_last()[normalized_len(s) - 1] == s[normalized_len(s) - 1]);
        }
    }
}

proof fn lemma_char_lex_ascii(a: Seq<char>, b: Seq<char>)
    requires
        is_ascii_chars(a),
        is_ascii_chars(b),
    ensures
        char_lex_order(a, b) == lex_order(encode_utf8(a), encode_utf8(b)),
    decreases a.len(),
{
    if a.len() > 0 && b.len() > 0 {
        lemma_ascii_head(a, b);
        if a[0] == b[0] {
            lemma_char_lex_ascii(a.drop_first(), b.drop_first());
        }
    } else {
        if a.len() > 0 {
            lemma_ascii_head(a, a);
        }
        if b.len() > 0 {
            lemma_ascii_head(b, b);
        }
    }
}

proof fn lemma_char_lex_refl(a: Seq<char>)
    ensures
        char_lex_order(a, a) == Ordering::Equal,
    decreases a.len(),
{
    if a.len() > 0 {
        lemma_char_lex_refl(a.drop_first());
    }
}

/// The key entries of segments held exactly order as the segments do.
proof fn lemma_seg_key_order(x: SegV, y: SegV)
    requires
        key_exact(x),
        key_exact(y),
    ensures
        key_entry_order(seg_key(x), seg_key(y)) == seg_order(x, y),
{
    reveal_strlit("");
    if let (SegV::Text(a), SegV::Text(b)) = (x, y) {
        match (tag_weight_spec(a), tag_weight_spec(b)) {
            (None, None) => {
                lemma_char_lex_ascii(a, b);
            },
            (Some(wa), Some(wb)) => {
                if wa == wb {
                    lemma_char_lex_refl(weight_word(wa));
                }
            },
            _ => {},
        }
    }
}

/// Where `l` has run out at `i`, the closing entry of its key against the
/// entry of `r[i]` decides, as the generic comparison does.
proof fn lemma_key_runs_out(l: Seq<SegV>, r: Seq<SegV>, i: int)
    requires
        l.len() <= i < r.len(),
        key_faithful(r),
        !is_trailing_noise(r[r.len() - 1]),
    ensures
        key_entry_order((1i64, 30i64, ""@), seg_key(r[i])) != Ordering::Equal,
        seg_order_from(l, r, i) == key_entry_order((1i64, 30i64, ""@), seg_key(r[i])),
        seg_order_from(r, l, i) == key_entry_order(seg_key(r[i]), (1i64, 30i64, ""@)),
    decreases r.len() - i,
{
    reveal_strlit("");
    reveal_strlit("final");
    assert(key_exact(r[i]));
    if r[i] == SegV::Num(0) {
        assert(i + 1 < r.len());
        assert(!(r[i + 1] is Text));
        lemma_key_runs_out(l, r, i + 1);
    }
}

proof fn lemma_key_tails(l: Seq<SegV>, r: Seq<SegV>, i: int)
    requires
        key_faithful(l),
        key_faithful(r),
        l.len() > 0 ==> !is_trailing_noise(l[l.len() - 1]),
        r.len() > 0 ==> !is_trailing_noise(r[r.len() - 1]),
        0 <= i <= l.len(),
        i <= r.len(),
    ensures
        key_seq_order(key_tail(l).skip(i), key_tail(r).skip(i)) == seg_order_from(l, r, i),
    decreases l.len() - i,
{
    reveal_strlit("");
    let x = key_tail(l).skip(i);
    let y = key_tail(r).skip(i);
    assert(x.len() == l.len() + 1 - i);
    assert(y.len() == r.len() + 1 - i);
    if i == l.len() && i == r.len() {
        assert(x[0] == (1i64, 30i64, ""@));
        assert(y[0] == (1i64, 30i64, ""@));
        assert(key_entry_order(x[0], y[0]) == Ordering::Equal);
        assert(key_seq_order(x.drop_first(), y.drop_first()) == Ordering::Equal);
    } else if i == l.len() {
        assert(x[0] == (1i64, 30i64, ""@));
        assert(y[0] == seg_key(r[i]));
        lemma_key_runs_out(l, r, i);
    } else if i == r.len() {
        assert(y[0] == (1i64, 30i64, ""@));
        assert(x[0] == seg_key(l[i]));
        lemma_key_runs_out(r, l, i);
    } else {
        assert(x[0] == seg_key(l[i]));
        assert(y[0] == seg_key(r[i]));
        lemma_seg_key_order(l[i], r[i]);
        assert(x.drop_first() =~= key_tail(l).skip(i + 1));
        assert(y.drop_first() =~= key_tail(r).skip(i + 1));
        lemma_key_tails(l, r, i + 1);
    }
}

/// Without a zero before the first word, no zero is dropped from the key.
proof fn lemma_key_segments_whole(l: Seq<SegV>)
    requires
        key_faithful(l),
    ensures
        key_segments(l) == l,
{
    lemma_first_text_from(l, 0);
    if let Some(p) = first_text_from(l, 0) {
        if p > 0 {
            assert(l[p] is Text);
            assert(l[p - 1] != SegV::Num(0));
        }
        assert(zero_tail_start(l, p) == p);
        assert(l.subrange(0, p) + l.subrange(p, l.len() as int) =~= l);
    }
}

/// Sort keys order versions exactly as the generic comparison does, for
/// versions whose keys hold them exactly (epochs and numbers no larger
/// than `i64::MAX`, words of ASCII characters) and whose normalized
/// segments have no zero directly before a word.
pub proof fn law_sort_key_orders_as_generic(ea: u64, sa: Seq<SegV>, eb: u64, sb: Seq<SegV>)
    requires
        ea <= i64::MAX,
        eb <= i64::MAX,
        key_faithful(normalize(sa)),
        key_faithful(normalize(sb)),
    ensures
        key_seq_order(sort_key_spec(ea, sa), sort_key_spec(eb, sb)) == generic_order(
            ea,
            sa,
            eb,
            sb,
        ),
{
    reveal_strlit("");
    let l = normalize(sa);
    let r = normalize(sb);
    lemma_normalized_len(sa);
    lemma_normalized_len(sb);
    lemma_no_trailing_zero(sa);
    lemma_no_trailing_zero(sb);
    if l.len() > 0 {
        assert(l[l.len() - 1] == sa[normalized_len(sa) - 1]);
    }
    if r.len() > 0 {
        assert(r[r.len() - 1] == sb[normalized_len(sb) - 1]);
    }
    lemma_key_segments_whole(l);
    lemma_key_segments_whole(r);
    let ka = sort_key_spec(ea, sa);
    let kb = sort_key_spec(eb, sb);
    assert(ka =~= seq![(2i64, sat_i64(ea), ""@)] + key_tail(l));
    assert(kb =~= seq![(2i64, sat_i64(eb), ""@)] + key_tail(r));
    assert(ka.drop_first() =~= key_tail(l).skip(0));
    assert(kb.drop_first() =~= key_tail(r).skip(0));
    lemma_key_tails(l, r, 0);
}

/// `x2` holds what `x` holds at every position before `m`.
pub open spec fn agree_before(x: Seq<SegV>, x2: Seq<SegV>, m: int) -> bool {
    forall|i: int|
        0 <= i < m ==> (i < x.len() <==> i < x2.len()) && (i < x.len() ==> #[trigger] x[i]
            == x2[i])
}

/// Lists that agree before `m` compare as they do from `m` on.
proof fn lemma_agree_before(
    l: Seq<SegV>,
    r: Seq<SegV>,
    l2: Seq<SegV>,
    r2: Seq<SegV>,
    k: int,
    m: int,
)
    requires
        0 <= k <= m,
        agree_before(l, l2, m),
        agree_before(r, r2, m),
        seg_order_from(l, r, m) == seg_order_from(l2, r2, m),
    ensures
        seg_order_from(l, r, k) == seg_order_from(l2, r2, k),
    decreases m - k,
{
    if k < m {
        lemma_agree_before(l, r, l2, r2, k + 1, m);
        if k < l.len() {
            assert(l[k] == l2[k]);
        }
        if k < r.len() {
            assert(r[k] == r2[k]);
        }
    }
}

/// The same segments at shifted positions compare alike.
proof fn lemma_shifted(l: Seq<SegV>, r: Seq<SegV>, a: int, l2: Seq<SegV>, r2: Seq<SegV>, b: int)
    requires
        0 <= a,
        0 <= b,
        l.len() - a == l2.len() - b,
        r.len() - a == r2.len() - b,
        forall|i: int| a <= i < l.len() ==> #[trigger] l[i] == l2[i - a + b],
        forall|i: int| a <= i < r.len() ==> #[trigger] r[i] == r2[i - a + b],
    ensures
        seg_order_from(l, r, a) == seg_order_from(l2, r2, b),
    decreases max_len(l, r) - a,
{
    if a < l.len() || a < r.len() {
        if a < l.len() {
            assert(l[a] == l2[b]);
        }
        if a < r.len() {
            assert(r[a] == r2[b]);
        }
        lemma_shifted(l, r, a + 1, l2, r2, b + 1);
    }
}

/// Zeros against zeros change nothing.
proof fn lemma_zeros_both(l: Seq<SegV>, r: Seq<SegV>, k: int, n: int)
    requires
        0 <= k <= n,
        n <= l.len(),
        n <= r.len(),
        forall|i: int| k <= i < n ==> l[i] == SegV::Num(0) && r[i] == SegV::Num(0),
    ensures
        seg_order_from(l, r, k) == seg_order_from(l, r, n),
    decreases n - k,
{
    if k < n {
        lemma_zeros_both(l, r, k + 1, n);
    }
}

/// Zeros in `l` against numbers in `r` up to a last one that is not zero:
/// `l` is below.
proof fn lemma_zeros_below_number(l: Seq<SegV>, r: Seq<SegV>, k: int, e: int)
    requires
        0 <= k < e,
        e <= l.len(),
        e <= r.len(),
        forall|i: int| k <= i < e ==> l[i] == SegV::Num(0) && #[trigger] r[i] is Num,
        r[e - 1] != SegV::Num(0),
    ensures
        seg_order_from(l, r, k) == Ordering::Less,
        seg_order_from(r, l, k) == Ordering::Greater,
    decreases e - k,
{
    if r[k] == SegV::Num(0) {
        lemma_zeros_below_number(l, r, k + 1, e);
    }
}

/// Zeros in `l` up to a word at `n` against numbers in `r` up to `n` and
/// beyond: `l` is below.
proof fn lemma_zeros_then_word(l: Seq<SegV>, r: Seq<SegV>, k: int, n: int)
    requires
        0 <= k <= n,
        n < l.len(),
        n < r.len(),
        l[n] is Text,
        forall|i: int| k <= i < n ==> l[i] == SegV::Num(0),
        forall|i: int| k <= i <= n ==> #[trigger] r[i] is Num,
    ensures
        seg_order_from(l, r, k) == Ordering::Less,
        seg_order_from(r, l, k) == Ordering::Greater,
    decreases n - k,
{
    assert(r[k] is Num);
    if k < n && r[k] == SegV::Num(0) {
        lemma_zeros_then_word(l, r, k + 1, n);
    }
}

/// Zeros in `l` past the end of `r` change nothing.
proof fn lemma_zeros_past_end(l: Seq<SegV>, r: Seq<SegV>, k: int, n: int)
    requires
        r.len() <= k <= n,
        n < l.len(),
        forall|i: int| k <= i < n ==> l[i] == SegV::Num(0),
    ensures
        seg_order_from(l, r, k) == seg_order_from(l, r, n),
        seg_order_from(r, l, k) == seg_order_from(r, l, n),
    decreases n - k,
{
    if k < n {
        lemma_zeros_past_end(l, r, k + 1, n);
    }
}

/// `l`, whose first word stands at `n`, against `r`, which has no word:
/// leaving out the zeros just before that word changes nothing.
proof fn lemma_strip_against_numbers(l: Seq<SegV>, r: Seq<SegV>, n: int)
    requires
        first_text_from(l, 0) == Some(n),
        first_text_from(r, 0) is None,
        r.len() > 0 ==> r[r.len() - 1] != SegV::Num(0),
    ensures
        seg_order_from(key_segments(l), r, 0) == seg_order_from(l, r, 0),
        seg_order_from(r, key_segments(l), 0) == seg_order_from(r, l, 0),
{
    lemma_first_text_from(l, 0);
    lemma_first_text_from_none(r, 0);
    lemma_zero_tail_start(l, n);
    let z = zero_tail_start(l, n);
    let l2 = key_segments(l);
    assert(l2 =~= l.subrange(0, z) + l.subrange(n, int_of(l.len())));
    assert(l2[z] == l[n]);
    assert(agree_before(l, l2, z));
    assert(agree_before(r, r, z));
    if z < r.len() {
        assert(r[z] is Num);
        if r.len() <= n {
            let e = int_of(r.len());
            assert forall|i: int| z <= i < e implies l[i] == SegV::Num(0) && #[trigger] r[i] is Num by {
            }
            lemma_zeros_below_number(l, r, z, e);
        } else {
            lemma_zeros_then_word(l, r, z, n);
        }
    } else {
        lemma_zeros_past_end(l, r, z, n);
    }
    lemma_agree_before(l, r, l2, r, 0, z);
    lemma_agree_before(r, l, r, l2, 0, z);
}

proof fn lemma_first_text_from_none(s: Seq<SegV>, i: int)
    requires
        0 <= i,
        first_text_from(s, i) is None,
    ensures
        forall|k: int| i <= k < s.len() ==> #[trigger] s[k] is Num,
    decreases s.len() - i,
{
    if i < s.len() {
        lemma_first_text_from_none(s, i + 1);
    }
}

/// `l` and `r`, whose first words stand at one position `n`: leaving out
/// the zeros just before those words changes nothing.
proof fn lemma_strip_aligned(l: Seq<SegV>, r: Seq<SegV>, n: int)
    requires
        first_text_from(l, 0) == Some(n),
        first_text_from(r, 0) == Some(n),
    ensures
        seg_order_from(key_segments(l), key_segments(r), 0) == seg_order_from(l, r, 0),
{
    lemma_first_text_from(l, 0);
    lemma_first_text_from(r, 0);
    lemma_zero_tail_start(l, n);
    lemma_zero_tail_start(r, n);
    let (zl, zr) = (zero_tail_start(l, n), zero_tail_start(r, n));
    let (l2, r2) = (key_segments(l), key_segments(r));
    assert(l2 =~= l.subrange(0, zl) + l.subrange(n, int_of(l.len())));
    assert(r2 =~= r.subrange(0, zr) + r.subrange(n, int_of(r.len())));
    let m = if zl <= zr {
        zl
    } else {
        zr
    };
    assert(agree_before(l, l2, m));
    assert(agree_before(r, r2, m));
    lemma_first_text_before(l, n);
    lemma_first_text_before(r, n);
    if zl == zr {
        lemma_zeros_both(l, r, m, n);
        lemma_shifted(l, r, n, l2, r2, m);
    } else if zl < zr {
        lemma_zeros_below_number(l, r, m, zr);
        assert(l2[m] == l[n]);
        assert(r2[m] == r[m]);
    } else {
        lemma_zeros_below_number(r, l, m, zl);
        assert(r2[m] == r[n]);
        assert(l2[m] == l[m]);
    }
    lemma_agree_before(l, r, l2, r2, 0, m);
}

/// Before its first word, a list holds numbers.
proof fn lemma_first_text_before(s: Seq<SegV>, n: int)
    requires
        first_text_from(s, 0) == Some(n),
    ensures
        forall|i: int| 0 <= i < n ==> #[trigger] s[i] is Num,
{
    assert forall|i: int| 0 <= i < n implies #[trigger] s[i] is Num by {
        lemma_first_text_skips(s, 0, i, n);
    }
}

proof fn lemma_first_text_skips(s: Seq<SegV>, k: int, i: int, n: int)
    requires
        0 <= k <= i < n,
        first_text_from(s, k) == Some(n),
    ensures
        s[i] is Num,
    decreases i - k,
{
    if k < i {
        lemma_first_text_skips(s, k + 1, i, n);
    }
}

/// Without zeros before its first word, the last segment of a list stays.
proof fn lemma_key_segments_last(l: Seq<SegV>)
    ensures
        key_segments(l).len() == 0 <==> l.len() == 0,
        l.len() > 0 ==> key_segments(l)[key_segments(l).len() - 1] == l[l.len() - 1],
{
    lemma_first_text_from(l, 0);
    if let Some(p) = first_text_from(l, 0) {
        lemma_zero_tail_start(l, p);
        let z = zero_tail_start(l, p);
        assert(key_segments(l) =~= l.subrange(0, z) + l.subrange(p, int_of(l.len())));
    }
}

/// Sort keys order versions as the generic comparison does when the first
/// words of their normalized segments stand at one position, or one of
/// them has no word (as `1.0.0-alpha`, `1.0.0-beta.2` and `1.0.0` do),
/// provided the keys hold them exactly (epochs and numbers no larger than
/// `i64::MAX`, words of ASCII characters) and, once the zeros just before
/// the first word are left out, no zero stands directly before a word.
pub proof fn law_sort_key_orders_aligned_versions(ea: u64, sa: Seq<SegV>, eb: u64, sb: Seq<SegV>)
    requires
        ea <= i64::MAX,
        eb <= i64::MAX,
        key_faithful(key_segments(normalize(sa))),
        key_faithful(key_segments(normalize(sb))),
        first_text_from(normalize(sa), 0) is None || first_text_from(normalize(sb), 0) is None
            || first_text_from(normalize(sa), 0) == first_text_from(normalize(sb), 0),
    ensures
        key_seq_order(sort_key_spec(ea, sa), sort_key_spec(eb, sb)) == generic_order(
            ea,
            sa,
            eb,
            sb,
        ),
{
    reveal_strlit("");
    let l = normalize(sa);
    let r = normalize(sb);
    lemma_normalized_len(sa);
    lemma_normalized_len(sb);
    lemma_no_trailing_zero(sa);
    lemma_no_trailing_zero(sb);
    if l.len() > 0 {
        assert(l[l.len() - 1] == sa[normalized_len(sa) - 1]);
    }
    if r.len() > 0 {
        assert(r[r.len() - 1] == sb[normalized_len(sb) - 1]);
    }
    let (l2, r2) = (key_segments(l), key_segments(r));
    lemma_key_segments_last(l);
    lemma_key_segments_last(r);
    let ka = sort_key_spec(ea, sa);
    let kb = sort_key_spec(eb, sb);
    assert(ka =~= seq![(2i64, sat_i64(ea), ""@)] + key_tail(l2));
    assert(kb =~= seq![(2i64, sat_i64(eb), ""@)] + key_tail(r2));
    assert(ka.drop_first() =~= key_tail(l2).skip(0));
    assert(kb.drop_first() =~= key_tail(r2).skip(0));
    lemma_key_tails(l2, r2, 0);
    match (first_text_from(l, 0), first_text_from(r, 0)) {
        (Some(p), Some(q)) => {
            lemma_strip_aligned(l, r, p);
        },
        (Some(p), None) => {
            lemma_strip_against_numbers(l, r, p);
            assert(r2 == r);
        },
        (None, Some(q)) => {
            lemma_strip_against_numbers(r, l, q);
            assert(l2 == l);
        },
        (None, None) => {
            assert(l2 == l);
            assert(r2 == r);
        },
    }
}

proof fn lemma_char_lex_trans(a: Seq<char>, b: Seq<char>, c: Seq<char>)
    requires
        char_lex_order(a, b) != Ordering::Less,
        char_lex_order(b, c) != Ordering::Less,
    ensures
        char_lex_order(a, c) != Ordering::Less,
        char_lex_order(a, b) == Ordering::Greater || char_lex_order(b, c) == Ordering::Greater
            ==> char_lex_order(a, c) == Ordering::Greater,
    decreases a.len(),
{
    if a.len() > 0 && b.len() > 0 && c.len() > 0 && a[0] == b[0] && b[0] == c[0] {
        lemma_char_lex_trans(a.drop_first(), b.drop_first(), c.drop_first());
    }
}

proof fn lemma_key_entry_trans(
    x: (i64, i64, Seq<char>),
    y: (i64, i64, Seq<char>),
    z: (i64, i64, Seq<char>),
)
    requires
        key_entry_order(x, y) != Ordering::Less,
        key_entry_order(y, z) != Ordering::Less,
    ensures
        key_entry_order(x, z) != Ordering::Less,
        key_entry_order(x, y) == Ordering::Greater || key_entry_order(y, z) == Ordering::Greater
            ==> key_entry_order(x, z) == Ordering::Greater,
{
    if x.0 == y.0 && y.0 == z.0 && x.1 == y.1 && y.1 == z.1 {
        lemma_char_lex_trans(x.2, y.2, z.2);
    }
}

/// Sort keys compare transitively: `a >= b >= c` gives `a >= c`, strictly
/// when either step is strict.
proof fn lemma_key_seq_trans(
    a: Seq<(i64, i64, Seq<char>)>,
    b: Seq<(i64, i64, Seq<char>)>,
    c: Seq<(i64, i64, Seq<char>)>,
)
    requires
        key_seq_order(a, b) != Ordering::Less,
        key_seq_order(b, c) != Ordering::Less,
    ensures
        key_seq_order(a, c) != Ordering::Less,
        key_seq_order(a, b) == Ordering::Greater || key_seq_order(b, c) == Ordering::Greater
            ==> key_seq_order(a, c) == Ordering::Greater,
    decreases a.len(),
{
    if a.len() > 0 && b.len() > 0 && c.len() > 0 {
        lemma_key_entry_trans(a[0], b[0], c[0]);
        if key_entry_order(a[0], b[0]) == Ordering::Equal && key_entry_order(b[0], c[0])
            == Ordering::Equal {
            lemma_char_lex_antisym(a[0].2, b[0].2);
            lemma_char_lex_antisym(b[0].2, c[0].2);
            lemma_char_lex_antisym(a[0].2, c[0].2);
            lemma_char_lex_trans(c[0].2, b[0].2, a[0].2);
            lemma_key_seq_trans(a.drop_first(), b.drop_first(), c.drop_first());
        }
    }
}

proof fn lemma_char_lex_antisym(a: Seq<char>, b: Seq<char>)
    ensures
        char_lex_order(b, a) == flip(char_lex_order(a, b)),
    decreases a.len(),
{
    if a.len() > 0 && b.len() > 0 && a[0] == b[0] {
        lemma_char_lex_antisym(a.drop_first(), b.drop_first());
    }
}

/// The generic comparison goes round in a circle on `1.0.0-alpha`,
/// `1.0-post` and `1`.
proof fn lemma_generic_cycle()
    ensures
        generic_order(
            0,
            seq![SegV::Num(1), SegV::Num(0), SegV::Num(0), SegV::Text("alpha"@)],
            0,
            seq![SegV::Num(1), SegV::Num(0), SegV::Text("post"@)],
        ) == Ordering::Greater,
        generic_order(
            0,
            seq![SegV::Num(1), SegV::Num(0), SegV::Text("post"@)],
            0,
            seq![SegV::Num(1)],
        ) == Ordering::Greater,
        generic_order(
            0,
            seq![SegV::Num(1), SegV::Num(0), SegV::Num(0), SegV::Text("alpha"@)],
            0,
            seq![SegV::Num(1)],
        ) == Ordering::Less,
{
    lemma_alpha_post_weights();
    let a = seq![SegV::Num(1), SegV::Num(0), SegV::Num(0), SegV::Text("alpha"@)];
    let b = seq![SegV::Num(1), SegV::Num(0), SegV::Text("post"@)];
    let c = seq![SegV::Num(1)];
    assert(!is_trailing_noise(a.last()));
    assert(!is_trailing_noise(b.last()));
    assert(!is_trailing_noise(c.last()));
    assert(normalize(a) =~= a);
    assert(normalize(b) =~= b);
    assert(normalize(c) =~= c);
    assert(seg_order_from(a, b, 2) == Ordering::Greater);
    assert(seg_order_from(a, b, 1) == Ordering::Greater);
    assert(seg_order_from(a, b, 0) == Ordering::Greater);
    assert(seg_order_from(b, c, 2) == Ordering::Greater);
    assert(seg_order_from(b, c, 1) == Ordering::Greater);
    assert(seg_order_from(b, c, 0) == Ordering::Greater);
    assert(seg_order_from(a, c, 3) == Ordering::Less);
    assert(seg_order_from(a, c, 2) == Ordering::Less);
    assert(seg_order_from(a, c, 1) == Ordering::Less);
    assert(seg_order_from(a, c, 0) == Ordering::Less);
}

/// No sort key, whatever it holds, orders every pair of versions as the
/// generic comparison does: that comparison goes round in a circle
/// (`1.0.0-alpha` above `1.0-post`, that above `1`, and `1` above
/// `1.0.0-alpha`), while keys compare transitively.
pub proof fn law_no_sort_key_orders_every_pair(
    key: spec_fn(u64, Seq<SegV>) -> Seq<(i64, i64, Seq<char>)>,
)
    ensures
        exists|ea: u64, sa: Seq<SegV>, eb: u64, sb: Seq<SegV>|
            key_seq_order(key(ea, sa), key(eb, sb)) != generic_order(ea, sa, eb, sb),
{
    let a = seq![SegV::Num(1), SegV::Num(0), SegV::Num(0), SegV::Text("alpha"@)];
    let b = seq![SegV::Num(1), SegV::Num(0), SegV::Text("post"@)];
    let c = seq![SegV::Num(1)];
    lemma_generic_cycle();
    if key_seq_order(key(0, a), key(0, b)) == generic_order(0, a, 0, b) && key_seq_order(
        key(0, b),
        key(0, c),
    ) == generic_order(0, b, 0, c) {
        lemma_key_seq_trans(key(0, a), key(0, b), key(0, c));
        assert(key_seq_order(key(0, a), key(0, c)) != generic_order(0, a, 0, c));
    }
}

// ---------------------------------------------------------------------------
// Hash keys
// ---------------------------------------------------------------------------

/// Two segments that compare equal are one segment once their words are
/// spelled as their weights.
proof fn lemma_equal_segs_canonical(x: SegV, y: SegV)
    requires
        seg_order(x, y) == Ordering::Equal,
    ensures
        canon_seg(x) == canon_seg(y),
{
    if let (SegV::Text(a), SegV::Text(b)) = (x, y) {
        if tag_weight_spec(a) is None && tag_weight_spec(b) is None {
            lemma_lex_order_equal(encode_utf8(a), encode_utf8(b));
            encode_utf8_decode_utf8(a);
            encode_utf8_decode_utf8(b);
        }
    }
}

/// A list that has run out never equals the rest of a list whose last
/// segment is no trailing noise.
proof fn lemma_runs_out_unequal(l: Seq<SegV>, r: Seq<SegV>, i: int)
    requires
        l.len() <= i < r.len(),
        !is_trailing_noise(r[r.len() - 1]),
    ensures
        seg_order_from(l, r, i) != Ordering::Equal,
        seg_order_from(r, l, i) != Ordering::Equal,
    decreases r.len() - i,
{
    if r[i] == SegV::Num(0) {
        lemma_runs_out_unequal(l, r, i + 1);
    }
}

proof fn lemma_seg_equal_trans(x: SegV, y: SegV, z: SegV)
    requires
        seg_order(x, y) == Ordering::Equal,
        seg_order(y, z) == Ordering::Equal,
    ensures
        seg_order(x, z) == Ordering::Equal,
{
    if let (SegV::Text(a), SegV::Text(b), SegV::Text(c)) = (x, y, z) {
        lemma_lex_order_equal(encode_utf8(a), encode_utf8(b));
        lemma_lex_order_equal(encode_utf8(b), encode_utf8(c));
        lemma_lex_order_equal(encode_utf8(a), encode_utf8(c));
    }
}

/// Position by position equal lists, from `i` on.
pub open spec fn equal_from(l: Seq<SegV>, r: Seq<SegV>, i: int) -> bool {
    &&& l.len() == r.len()
    &&& forall|k: int| i <= k < l.len() ==> seg_order(#[trigger] l[k], r[k]) == Ordering::Equal
}

proof fn lemma_equal_positions(l: Seq<SegV>, r: Seq<SegV>, i: int)
    requires
        0 <= i <= l.len(),
        i <= r.len(),
        l.len() > 0 ==> !is_trailing_noise(l[l.len() - 1]),
        r.len() > 0 ==> !is_trailing_noise(r[r.len() - 1]),
    ensures
        seg_order_from(l, r, i) == Ordering::Equal <==> equal_from(l, r, i),
    decreases l.len() - i,
{
    if i == l.len() && i == r.len() {
    } else if i == l.len() {
        lemma_runs_out_unequal(l, r, i);
    } else if i == r.len() {
        lemma_runs_out_unequal(r, l, i);
    } else {
        lemma_equal_positions(l, r, i + 1);
    }
}

/// Equality under the generic order is transitive, although the order
/// itself is not.
pub proof fn law_generic_equality_transitive(
    ea: u64,
    sa: Seq<SegV>,
    eb: u64,
    sb: Seq<SegV>,
    ec: u64,
    sc: Seq<SegV>,
)
    requires
        generic_order(ea, sa, eb, sb) == Ordering::Equal,
        generic_order(eb, sb, ec, sc) == Ordering::Equal,
    ensures
        generic_order(ea, sa, ec, sc) == Ordering::Equal,
{
    let (l, m, n) = (normalize(sa), normalize(sb), normalize(sc));
    lemma_normalized_len(sa);
    lemma_normalized_len(sb);
    lemma_normalized_len(sc);
    lemma_no_trailing_zero(sa);
    lemma_no_trailing_zero(sb);
    lemma_no_trailing_zero(sc);
    if l.len() > 0 {
        assert(l[l.len() - 1] == sa[normalized_len(sa) - 1]);
    }
    if m.len() > 0 {
        assert(m[m.len() - 1] == sb[normalized_len(sb) - 1]);
    }
    if n.len() > 0 {
        assert(n[n.len() - 1] == sc[normalized_len(sc) - 1]);
    }
    lemma_equal_positions(l, m, 0);
    lemma_equal_positions(m, n, 0);
    lemma_equal_positions(l, n, 0);
    assert forall|k: int| 0 <= k < l.len() implies seg_order(#[trigger] l[k], n[k])
        == Ordering::Equal by {
        assert(seg_order(l[k], m[k]) == Ordering::Equal);
        assert(seg_order(m[k], n[k]) == Ordering::Equal);
        lemma_seg_equal_trans(l[k], m[k], n[k]);
    }
}

/// Versions that compare equal share their hash keys: the same epoch, and
/// the same normalized segments once every word is spelled as its weight
/// (`1.0-rc1` and `1.0-cr1`, `1.0a1` and `1.0alpha1`).
pub proof fn law_equal_versions_share_hash_keys(ea: u64, sa: Seq<SegV>, eb: u64, sb: Seq<SegV>)
    requires
        generic_order(ea, sa, eb, sb) == Ordering::Equal,
    ensures
        ea == eb,
        canonical(normalize(sa)) == canonical(normalize(sb)),
{
    lemma_normalized_len(sa);
    lemma_normalized_len(sb);
    lemma_no_trailing_zero(sa);
    lemma_no_trailing_zero(sb);
    let l = normalize(sa);
    let r = normalize(sb);
    if l.len() > 0 {
        assert(l[l.len() - 1] == sa[normalized_len(sa) - 1]);
    }
    if r.len() > 0 {
        assert(r[r.len() - 1] == sb[normalized_len(sb) - 1]);
    }
    lemma_equal_positions(l, r, 0);
    assert forall|k: int| 0 <= k < l.len() implies canonical(l)[k] == canonical(r)[k] by {
        assert(seg_order(l[k], r[k]) == Ordering::Equal);
        lemma_equal_segs_canonical(l[k], r[k]);
    }
    assert(canonical(l) =~= canonical(r));
}

/// A strategy that parses into the generic reading and compares by it
/// (PEP 440 then also by local labels): all but SemVer, Go, Debian and RPM.
pub open spec fn reads_generically(s: Strategy) -> bool {
    !(s == Strategy::Semver || s == Strategy::Go || s == Strategy::Debian || s == Strategy::Rpm)
}

proof fn lemma_generic_repr(s: Strategy, input: Seq<char>, p: ParsedRepr)
    requires
        reads_generically(s),
        parse_agrees(s, input, Ok(p)),
    ensures
        p matches ParsedRepr::Generic(x) && parsed_from(x, input),
{
    reveal(parse_agrees);
}

/// Version objects that compare equal share their hash keys whenever the
/// comparison goes by the generic reading: versions of two ecosystems, or
/// of one ecosystem whose strategy reads generically.
pub proof fn law_equal_version_objects_share_hash_keys(a: Version, b: Version)
    requires
        a.wf(),
        b.wf(),
        version_order(a, b) == Ordering::Equal,
        a.eco != b.eco || reads_generically(strategy_of(a.eco)),
    ensures
        a.inner.epoch == b.inner.epoch,
        canonical(normalize(segs_view(a.inner.segments@))) == canonical(
            normalize(segs_view(b.inner.segments@)),
        ),
{
    let (ai, bi) = (a.inner, b.inner);
    if a.eco == b.eco {
        let s = strategy_of(a.eco);
        lemma_generic_repr(s, ai.raw@, a.repr);
        lemma_generic_repr(s, bi.raw@, b.repr);
        reveal(repr_order);
        if let (ParsedRepr::Generic(x), ParsedRepr::Generic(y)) = (a.repr, b.repr) {
            assert(parsed_order(x, y) == parsed_order(ai, bi));
            if s == Strategy::Pep440 {
                assert(parsed_order(x, y) == Ordering::Equal);
            }
        }
    }
    law_equal_versions_share_hash_keys(
        ai.epoch,
        segs_view(ai.segments@),
        bi.epoch,
        segs_view(bi.segments@),
    );
}

// ---------------------------------------------------------------------------
// What the generic parser ignores
// ---------------------------------------------------------------------------

/// A `v` or `V` before a digit is dropped: `v1.0` reads as `1.0`.
pub proof fn law_v_prefix_ignored(t: Seq<u8>)
    requires
        t.len() > 0,
        is_digit(t[0]),
    ensures
        strip_v_bytes(seq![crate::text::LOWER_V] + t) == t,
        strip_v_bytes(seq![crate::text::UPPER_V] + t) == t,
        strip_v_bytes(t) == t,
{
    assert((seq![crate::text::LOWER_V] + t).drop_first() =~= t);
    assert((seq![crate::text::UPPER_V] + t).drop_first() =~= t);
}

proof fn lemma_digit_run_concat(t: Seq<u8>, y: Seq<u8>)
    requires
        y.len() > 0,
        !is_digit(y[0]),
    ensures
        digit_run(t + y) == digit_run(t),
    decreases t.len(),
{
    if t.len() > 0 && is_digit(t[0]) {
        assert((t + y).drop_first() =~= t.drop_first() + y);
        lemma_digit_run_concat(t.drop_first(), y);
    } else if t.len() == 0 {
        assert(t + y =~= y);
    }
}

proof fn lemma_first_pos_concat(t: Seq<u8>, y: Seq<u8>, x: u8, i: int)
    requires
        0 <= i <= t.len(),
        forall|k: int| 0 <= k < t.len() ==> t[k] != x,
        y.len() > 0,
        y[0] == x,
    ensures
        crate::text::find_from(t + y, x, i) == Some(t.len() as int),
    decreases t.len() - i,
{
    if i < t.len() {
        lemma_first_pos_concat(t, y, x, i + 1);
    }
}

/// Build metadata is kept apart by the generic parser: for bytes `t`
/// without a `+`, `t+meta` has the epoch and the segments of `t`, and
/// `meta` as build metadata.
pub proof fn law_build_metadata_ignored(t: Seq<u8>, meta: Seq<u8>)
    requires
        forall|k: int| 0 <= k < t.len() ==> t[k] != crate::text::PLUS,
    ensures
        segments_of(t + seq![crate::text::PLUS] + meta) == segments_of(t),
        epoch_of(t + seq![crate::text::PLUS] + meta) == epoch_of(t),
        after_plus(after_epoch(t + seq![crate::text::PLUS] + meta)) == meta,
{
    let y = seq![crate::text::PLUS] + meta;
    let u = t + y;
    assert(u =~= t + seq![crate::text::PLUS] + meta);
    lemma_digit_run_concat(t, y);
    lemma_digit_run(t);
    let k = digit_run(t) as int;
    if k < t.len() {
        assert(u[k] == t[k]);
        assert(u.subrange(0, k) =~= t.subrange(0, k));
    }
    assert(has_epoch(u) == has_epoch(t));
    assert(epoch_of(u) == epoch_of(t));
    let at = after_epoch(t);
    if has_epoch(t) {
        assert(after_epoch(u) =~= at + y);
    } else {
        assert(after_epoch(u) =~= at + y);
    }
    lemma_first_pos_concat(at, y, crate::text::PLUS, 0);
    assert(before_plus(at + y) =~= at);
    assert(after_plus(at + y) =~= meta);
    crate::text::lemma_first_pos(at, crate::text::PLUS);
    assert(before_plus(at) == at);
}

/// Build metadata never changes how a version reads: parsing `a+b`, for
/// trimmed `a` without a `+` and trimmed `b`, gives the epoch, the
/// segments and the pre- and post-release flags of `a`, with `b` as the
/// build text.
pub proof fn law_build_metadata_kept_apart(
    a: Seq<char>,
    b: Seq<char>,
    p: ParsedVersion,
    q: ParsedVersion,
)
    requires
        trim_chars(a) == a,
        trim_chars(b) == b,
        forall|k: int| 0 <= k < a.len() ==> a[k] != '+',
        parsed_from(p, a + seq!['+'] + b),
        parsed_from(q, a),
    ensures
        p.raw@ == a + seq!['+'] + b,
        p.epoch == q.epoch,
        segs_view(p.segments@) == segs_view(q.segments@),
        p.is_prerelease == q.is_prerelease,
        p.is_postrelease == q.is_postrelease,
        p.build@ == b,
{
    let plus = crate::text::PLUS;
    let u = a + seq!['+'] + b;
    lemma_trim_joined(a, '+', b);
    lemma_encode_concat(a + seq!['+'], b);
    lemma_encode_concat(a, seq!['+']);
    is_ascii_chars_encode_utf8(seq!['+']);
    let ea = encode_utf8(a);
    let eb = encode_utf8(b);
    assert(encode_utf8(seq!['+']) =~= seq![plus]);
    assert(encode_utf8(u) =~= ea + seq![plus] + eb);
    lemma_encode_ascii_byte(a, plus);
    let t = strip_v_bytes(ea);
    assert(forall|k: int| 0 <= k < t.len() ==> t[k] != plus) by {
        assert forall|k: int| 0 <= k < t.len() implies t[k] != plus by {
            if t.len() < ea.len() {
                assert(t[k] == ea[k + 1]);
            } else {
                assert(t[k] == ea[k]);
            }
        }
    }
    let y = seq![plus] + eb;
    assert(ea + seq![plus] + eb =~= ea + y);
    if ea.len() > 1 {
        assert((ea + y)[0] == ea[0] && (ea + y)[1] == ea[1]);
        assert((ea + y).drop_first() =~= ea.drop_first() + y);
    } else if ea.len() == 1 {
        assert((ea + y)[1] == plus);
    } else {
        assert(ea + y =~= y);
    }
    assert(strip_v_bytes(ea + y) =~= t + y);
    assert(generic_input(u) =~= t + seq![plus] + eb);
    assert(generic_input(a) == t);
    law_build_metadata_ignored(t, eb);
    encode_utf8_decode_utf8(p.build@);
    encode_utf8_decode_utf8(b);
}

// ---------------------------------------------------------------------------
// Letter case and separators
// ---------------------------------------------------------------------------

/// `.`, `-` and `_`, which versions use alike between segments.
pub open spec fn is_plain_separator(b: u8) -> bool {
    b == crate::text::DOT || b == crate::text::DASH || b == crate::text::UNDERSCORE
}

/// Two bytes that read alike: one letter in either case, one other byte,
/// or two of `.`, `-`, `_`.
pub open spec fn bytes_alike(x: u8, y: u8) -> bool {
    lower_byte(x) == lower_byte(y) || (is_plain_separator(x) && is_plain_separator(y))
}

/// Byte strings that differ only in the case of letters and in which of
/// `.`, `-`, `_` they use.
pub open spec fn reads_alike(x: Seq<u8>, y: Seq<u8>) -> bool {
    &&& x.len() == y.len()
    &&& forall|i: int| 0 <= i < x.len() ==> bytes_alike(#[trigger] x[i], y[i])
}

/// Lower-cased byte strings that differ only in which of `.`, `-`, `_`
/// they use.
pub open spec fn lowered_alike(x: Seq<u8>, y: Seq<u8>) -> bool {
    &&& x.len() == y.len()
    &&& forall|i: int|
        0 <= i < x.len() ==> (#[trigger] x[i] == y[i] || (is_plain_separator(x[i])
            && is_plain_separator(y[i])))
}

proof fn lemma_alike_byte(x: u8, y: u8)
    requires
        bytes_alike(x, y),
    ensures
        is_alpha(x) == is_alpha(y),
        is_plain_separator(x) == is_plain_separator(y),
        !is_alpha(x) && !is_plain_separator(x) ==> x == y,
        is_alpha(x) ==> lower_byte(x) == lower_byte(y),
{
}

proof fn lemma_alike_sub(x: Seq<u8>, y: Seq<u8>, i: int, j: int)
    requires
        reads_alike(x, y),
        0 <= i <= j <= x.len(),
    ensures
        reads_alike(x.subrange(i, j), y.subrange(i, j)),
{
    assert forall|k: int| 0 <= k < j - i implies bytes_alike(
        #[trigger] x.subrange(i, j)[k],
        y.subrange(i, j)[k],
    ) by {
        assert(x.subrange(i, j)[k] == x[i + k]);
    }
}

proof fn lemma_lowered_sub(x: Seq<u8>, y: Seq<u8>, i: int)
    requires
        lowered_alike(x, y),
        0 <= i <= x.len(),
    ensures
        lowered_alike(x.skip(i), y.skip(i)),
        reads_alike(x, y),
{
    assert forall|k: int| 0 <= k < x.len() - i implies (#[trigger] x.skip(i)[k] == y.skip(i)[k]
        || (is_plain_separator(x.skip(i)[k]) && is_plain_separator(y.skip(i)[k]))) by {
        assert(x.skip(i)[k] == x[i + k]);
    }
    assert forall|k: int| 0 <= k < x.len() implies bytes_alike(#[trigger] x[k], y[k]) by {
        if x[k] != y[k] {
            assert(is_plain_separator(x[k]) && is_plain_separator(y[k]));
        }
    }
}

/// Bytes that read alike start with one run of digits.
proof fn lemma_alike_digits(x: Seq<u8>, y: Seq<u8>)
    requires
        reads_alike(x, y),
    ensures
        digit_run(x) == digit_run(y),
        x.subrange(0, digit_run(x) as int) == y.subrange(0, digit_run(y) as int),
    decreases x.len(),
{
    if x.len() > 0 {
        lemma_alike_byte(x[0], y[0]);
        lemma_alike_sub(x, y, 1, x.len() as int);
        assert(x.subrange(1, x.len() as int) =~= x.drop_first());
        assert(y.subrange(1, y.len() as int) =~= y.drop_first());
        lemma_alike_digits(x.drop_first(), y.drop_first());
        lemma_digit_run(x);
        lemma_digit_run(y);
        if is_digit(x[0]) {
            let k = digit_run(x) as int;
            assert(x.subrange(0, k) =~= seq![x[0]] + x.drop_first().subrange(0, k - 1));
            assert(y.subrange(0, k) =~= seq![y[0]] + y.drop_first().subrange(0, k - 1));
        }
    }
}

/// Lower-cased bytes that read alike start with one run of letters.
proof fn lemma_lowered_letters(x: Seq<u8>, y: Seq<u8>)
    requires
        lowered_alike(x, y),
    ensures
        alpha_run(x) == alpha_run(y),
        x.subrange(0, alpha_run(x) as int) == y.subrange(0, alpha_run(y) as int),
    decreases x.len(),
{
    if x.len() > 0 {
        lemma_lowered_sub(x, y, 1);
        assert(x.skip(1) =~= x.drop_first());
        assert(y.skip(1) =~= y.drop_first());
        lemma_lowered_letters(x.drop_first(), y.drop_first());
        lemma_alpha_run(x);
        lemma_alpha_run(y);
        if is_alpha(x[0]) {
            assert(x[0] == y[0]);
            let k = alpha_run(x) as int;
            assert(x.subrange(0, k) =~= seq![x[0]] + x.drop_first().subrange(0, k - 1));
            assert(y.subrange(0, k) =~= seq![y[0]] + y.drop_first().subrange(0, k - 1));
        }
    }
}

/// Lower-cased bytes that read alike have the same segments.
proof fn lemma_lowered_tokens(x: Seq<u8>, y: Seq<u8>)
    requires
        lowered_alike(x, y),
    ensures
        tokens(x) == tokens(y),
    decreases x.len(),
{
    if x.len() > 0 {
        lemma_lowered_sub(x, y, 1);
        assert(x.skip(1) =~= x.drop_first());
        assert(y.skip(1) =~= y.drop_first());
        if x[0] != y[0] {
            assert(is_plain_separator(x[0]) && is_plain_separator(y[0]));
            lemma_lowered_tokens(x.drop_first(), y.drop_first());
        } else if x[0] == crate::text::TILDE || x[0] == crate::text::CARET {
            lemma_lowered_tokens(x.drop_first(), y.drop_first());
        } else if is_digit(x[0]) {
            lemma_alike_digits(x, y);
            lemma_digit_run(x);
            let n = digit_run(x) as int;
            lemma_lowered_sub(x, y, n);
            lemma_lowered_tokens(x.skip(n), y.skip(n));
        } else if is_alpha(x[0]) {
            lemma_lowered_letters(x, y);
            lemma_alpha_run(x);
            let n = alpha_run(x) as int;
            lemma_lowered_sub(x, y, n);
            lemma_lowered_tokens(x.skip(n), y.skip(n));
        } else {
            lemma_lowered_tokens(x.drop_first(), y.drop_first());
        }
    }
}

proof fn lemma_alike_find(x: Seq<u8>, y: Seq<u8>, c: u8, i: int)
    requires
        reads_alike(x, y),
        !is_alpha(c),
        !is_plain_separator(c),
    ensures
        crate::text::find_from(x, c, i) == crate::text::find_from(y, c, i),
    decreases x.len() - i,
{
    if 0 <= i < x.len() {
        lemma_alike_byte(x[i], y[i]);
        lemma_alike_find(x, y, c, i + 1);
    }
}

/// What the generic parser reads from bytes that read alike: the same
/// epoch, and the same segments.
proof fn lemma_alike_reading(t: Seq<u8>, t2: Seq<u8>)
    requires
        reads_alike(t, t2),
    ensures
        epoch_of(t) == epoch_of(t2),
        segments_of(t) == segments_of(t2),
{
    lemma_alike_digits(t, t2);
    let k = digit_run(t) as int;
    lemma_digit_run(t);
    if k < t.len() {
        lemma_alike_byte(t[k], t2[k]);
    }
    assert(has_epoch(t) == has_epoch(t2));
    let (a, a2) = (after_epoch(t), after_epoch(t2));
    if has_epoch(t) {
        lemma_alike_sub(t, t2, k + 1, t.len() as int);
    } else {
        assert(reads_alike(a, a2));
    }
    lemma_alike_find(a, a2, crate::text::PLUS, 0);
    crate::text::lemma_first_pos(a, crate::text::PLUS);
    let (b, b2) = (before_plus(a), before_plus(a2));
    match crate::text::first_pos(a, crate::text::PLUS) {
        Some(p) => lemma_alike_sub(a, a2, 0, p),
        None => {},
    }
    let (l, l2) = (lower_bytes(b), lower_bytes(b2));
    assert forall|i: int| 0 <= i < l.len() implies (#[trigger] l[i] == l2[i] || (
    is_plain_separator(l[i]) && is_plain_separator(l2[i]))) by {
        lemma_alike_byte(b[i], b2[i]);
    }
    lemma_lowered_tokens(l, l2);
}

/// Neither the case of letters nor the choice among `.`, `-`, `_` changes
/// what the generic parser reads: versions whose trimmed texts differ only
/// in those have the same epoch, the same segments, and the same pre- and
/// post-release flags.
pub proof fn law_case_and_separators_ignored(
    s: Seq<char>,
    s2: Seq<char>,
    p: ParsedVersion,
    q: ParsedVersion,
)
    requires
        reads_alike(trimmed_bytes(s), trimmed_bytes(s2)),
        parsed_from(p, s),
        parsed_from(q, s2),
    ensures
        p.epoch == q.epoch,
        segs_view(p.segments@) == segs_view(q.segments@),
        p.is_prerelease == q.is_prerelease,
        p.is_postrelease == q.is_postrelease,
{
    let (t, t2) = (trimmed_bytes(s), trimmed_bytes(s2));
    if t.len() > 1 {
        lemma_alike_byte(t[0], t2[0]);
        lemma_alike_byte(t[1], t2[1]);
        lemma_alike_sub(t, t2, 1, t.len() as int);
        assert(t.subrange(1, t.len() as int) =~= t.drop_first());
        assert(t2.subrange(1, t2.len() as int) =~= t2.drop_first());
    }
    assert(reads_alike(generic_input(s), generic_input(s2)));
    lemma_alike_reading(generic_input(s), generic_input(s2));
}

// ---------------------------------------------------------------------------
// The least of a list
// ---------------------------------------------------------------------------

/// The order of strategy `s` is transitive among the items of `reprs`.
pub open spec fn transitive_on(s: Strategy, reprs: Seq<ParsedRepr>) -> bool {
    forall|a: int, b: int, c: int|
        0 <= a < reprs.len() && 0 <= b < reprs.len() && 0 <= c < reprs.len() ==> chains(
            #[trigger] repr_order(s, reprs[a], reprs[b]),
            #[trigger] repr_order(s, reprs[b], reprs[c]),
            repr_order(s, reprs[a], reprs[c]),
        )
}

proof fn lemma_min_choice_least(s: Strategy, reprs: Seq<ParsedRepr>, i: int, best: int)
    requires
        transitive_on(s, reprs),
        0 <= best < i <= reprs.len(),
        forall|j: int| 0 <= j < i ==> repr_order(s, reprs[j], reprs[best]) != Ordering::Less,
        forall|j: int| 0 <= j < best ==> repr_order(s, reprs[j], reprs[best]) == Ordering::Greater,
    ensures
        0 <= min_choice(s, reprs, i, best) < reprs.len(),
        forall|j: int|
            0 <= j < reprs.len() ==> repr_order(s, reprs[j], reprs[min_choice(s, reprs, i, best)])
                != Ordering::Less,
        forall|j: int|
            0 <= j < min_choice(s, reprs, i, best) ==> repr_order(
                s,
                reprs[j],
                reprs[min_choice(s, reprs, i, best)],
            ) == Ordering::Greater,
    decreases reprs.len() - i,
{
    if i < reprs.len() {
        law_repr_order_antisymmetric(s, reprs[best], reprs[i]);
        if repr_order(s, reprs[best], reprs[i]) == Ordering::Greater {
            assert forall|j: int| 0 <= j < i implies repr_order(s, reprs[j], reprs[i])
                == Ordering::Greater by {
                law_repr_order_antisymmetric(s, reprs[j], reprs[best]);
                law_repr_order_antisymmetric(s, reprs[i], reprs[j]);
                assert(chains(
                    repr_order(s, reprs[i], reprs[best]),
                    repr_order(s, reprs[best], reprs[j]),
                    repr_order(s, reprs[i], reprs[j]),
                ));
            }
            assert(repr_order(s, reprs[i], reprs[i]) != Ordering::Less) by {
                law_repr_order_reflexive(s, reprs[i]);
            }
            lemma_min_choice_least(s, reprs, i + 1, i);
        } else {
            lemma_min_choice_least(s, reprs, i + 1, best);
        }
    }
}

/// Where the order is transitive among the items (always, under the strict
/// strategies), `min_version` picks an item that no item is below, and
/// the first such: every earlier item is above it.
pub proof fn law_min_version_is_least(s: Strategy, reprs: Seq<ParsedRepr>)
    requires
        reprs.len() > 0,
        transitive_on(s, reprs),
    ensures
        0 <= min_choice(s, reprs, 1, 0) < reprs.len(),
        forall|j: int|
            0 <= j < reprs.len() ==> repr_order(s, reprs[j], reprs[min_choice(s, reprs, 1, 0)])
                != Ordering::Less,
        forall|j: int|
            0 <= j < min_choice(s, reprs, 1, 0) ==> repr_order(
                s,
                reprs[j],
                reprs[min_choice(s, reprs, 1, 0)],
            ) == Ordering::Greater,
{
    law_repr_order_reflexive(s, reprs[0]);
    lemma_min_choice_least(s, reprs, 1, 0);
}

/// Under a strict strategy (SemVer, Go, Debian, RPM), `min_version` picks
/// the first of the least items.
pub proof fn law_min_version_is_least_strict(s: Strategy, reprs: Seq<ParsedRepr>)
    requires
        reprs.len() > 0,
        s == Strategy::Semver || s == Strategy::Go || s == Strategy::Debian || s == Strategy::Rpm,
        forall|k: int| 0 <= k < reprs.len() ==> repr_fits(s, #[trigger] reprs[k]),
    ensures
        0 <= min_choice(s, reprs, 1, 0) < reprs.len(),
        forall|j: int|
            0 <= j < reprs.len() ==> repr_order(s, reprs[j], reprs[min_choice(s, reprs, 1, 0)])
                != Ordering::Less,
        forall|j: int|
            0 <= j < min_choice(s, reprs, 1, 0) ==> repr_order(
                s,
                reprs[j],
                reprs[min_choice(s, reprs, 1, 0)],
            ) == Ordering::Greater,
{
    assert forall|a: int, b: int, c: int|
        0 <= a < reprs.len() && 0 <= b < reprs.len() && 0 <= c < reprs.len() implies chains(
        #[trigger] repr_order(s, reprs[a], reprs[b]),
        #[trigger] repr_order(s, reprs[b], reprs[c]),
        repr_order(s, reprs[a], reprs[c]),
    ) by {
        law_repr_order_transitive(s, reprs[a], reprs[b], reprs[c]);
    }
    law_min_version_is_least(s, reprs);
}

// ---------------------------------------------------------------------------
// Post-release words
// ---------------------------------------------------------------------------

proof fn lemma_noise_tail(s: Seq<SegV>)
    ensures
        normalized_len(s) <= s.len(),
        forall|k: int| normalized_len(s) <= k < s.len() ==> is_trailing_noise(#[trigger] s[k]),
    decreases s.len(),
{
    lemma_normalized_len(s);
    if s.len() > 0 && is_trailing_noise(s.last()) {
        lemma_noise_tail(s.drop_last());
        assert forall|k: int| normalized_len(s) <= k < s.len() implies is_trailing_noise(
            #[trigger] s[k],
        ) by {
            if k < s.len() - 1 {
                assert(s[k] == s.drop_last()[k]);
            }
        }
    }
}

proof fn lemma_normalized_keeps(x: Seq<SegV>, j: int)
    requires
        0 <= j < x.len(),
        !is_trailing_noise(x[j]),
    ensures
        normalized_len(x) > j,
    decreases x.len(),
{
    if is_trailing_noise(x.last()) {
        assert(x.drop_last()[j] == x[j]);
        lemma_normalized_keeps(x.drop_last(), j);
    }
}

proof fn lemma_above_after_noise(l: Seq<SegV>, r: Seq<SegV>, k: int, n: int)
    requires
        r.len() <= k <= n < l.len(),
        forall|i: int| k <= i < n ==> is_trailing_noise(#[trigger] l[i]),
        seg_is_post(l[n]),
    ensures
        seg_order_from(l, r, k) == Ordering::Greater,
    decreases n - k,
{
    if k < n && l[k] is Num {
        assert(is_trailing_noise(l[k]));
        lemma_above_after_noise(l, r, k + 1, n);
    }
}

proof fn lemma_same_prefix(l: Seq<SegV>, r: Seq<SegV>, k: int, m: int)
    requires
        0 <= k <= m,
        m <= l.len(),
        m <= r.len(),
        forall|i: int| 0 <= i < m ==> #[trigger] l[i] == r[i],
    ensures
        seg_order_from(l, r, k) == seg_order_from(l, r, m),
    decreases m - k,
{
    if k < m {
        lemma_seg_order_refl(l[k]);
        lemma_same_prefix(l, r, k + 1, m);
    }
}

proof fn lemma_below_after_zeros(l: Seq<SegV>, r: Seq<SegV>, k: int, n: int)
    requires
        r.len() <= k <= n < l.len(),
        forall|i: int| k <= i < n ==> #[trigger] l[i] == SegV::Num(0),
        seg_is_pre(l[n]),
    ensures
        seg_order_from(l, r, k) == Ordering::Less,
    decreases n - k,
{
    if k < n {
        assert(l[k] == SegV::Num(0));
        lemma_below_after_zeros(l, r, k + 1, n);
    }
}

/// A pre-release word (`~`, `dev`, `alpha`, `a`, `beta`, `b`, `milestone`,
/// `m`, `rc`, `cr`, `c`, `preview`, `pre`, `snapshot`) after a version's
/// segments puts it below that version, whatever follows the word, and
/// marks it a pre-release: `1.0-rc1` is below `1.0`. (The version must not
/// end in a release word, as `1.0-final` does.)
pub proof fn law_prerelease_words_rank_below(
    e: u64,
    s: Seq<SegV>,
    w: Seq<char>,
    rest: Seq<SegV>,
)
    requires
        w == "~"@ || w == "dev"@ || w == "alpha"@ || w == "a"@ || w == "beta"@ || w == "b"@ || w
            == "milestone"@ || w == "m"@ || w == "rc"@ || w == "cr"@ || w == "c"@ || w
            == "preview"@ || w == "pre"@ || w == "snapshot"@,
        forall|k: int| normalized_len(s) <= k < s.len() ==> #[trigger] s[k] == SegV::Num(0),
    ensures
        generic_order(e, s + seq![SegV::Text(w)] + rest, e, s) == Ordering::Less,
        generic_order(e, s, e, s + seq![SegV::Text(w)] + rest) == Ordering::Greater,
        has_pre_segment(s + seq![SegV::Text(w)] + rest),
{
    law_known_word_weights();
    let x = s + seq![SegV::Text(w)] + rest;
    let n = int_of(s.len());
    assert(x[n] == SegV::Text(w));
    assert(seg_is_pre(x[n]));
    lemma_normalized_keeps(x, n);
    lemma_normalized_len(x);
    lemma_noise_tail(s);
    let l = normalize(x);
    let r = normalize(s);
    let m = int_of(normalized_len(s));
    assert forall|i: int| 0 <= i < m implies #[trigger] l[i] == r[i] by {
        assert(l[i] == x[i]);
        assert(x[i] == s[i]);
    }
    assert forall|i: int| m <= i < n implies #[trigger] l[i] == SegV::Num(0) by {
        assert(l[i] == x[i]);
        assert(x[i] == s[i]);
    }
    assert(l[n] == x[n]);
    lemma_same_prefix(l, r, 0, m);
    lemma_below_after_zeros(l, r, m, n);
    law_generic_order_antisymmetric(e, x, e, s);
}

/// A post-release word (`post`, `sp`, `patch` or `p`) after a version's
/// segments puts it above that version, whatever follows the word, and
/// marks it a post-release: `8.9p1` is above `8.9`, `1.0-post` above
/// `1.0.0`.
pub proof fn law_post_release_words_rank_above(
    e: u64,
    s: Seq<SegV>,
    w: Seq<char>,
    rest: Seq<SegV>,
)
    requires
        w == "post"@ || w == "sp"@ || w == "patch"@ || w == "p"@,
    ensures
        generic_order(e, s + seq![SegV::Text(w)] + rest, e, s) == Ordering::Greater,
        generic_order(e, s, e, s + seq![SegV::Text(w)] + rest) == Ordering::Less,
        has_post_segment(s + seq![SegV::Text(w)] + rest),
{
    lemma_post_word_weights();
    let x = s + seq![SegV::Text(w)] + rest;
    let n = int_of(s.len());
    assert(x[n] == SegV::Text(w));
    assert(seg_is_post(x[n]));
    lemma_normalized_keeps(x, n);
    lemma_normalized_len(x);
    lemma_noise_tail(s);
    let l = normalize(x);
    let r = normalize(s);
    let m = int_of(normalized_len(s));
    assert forall|i: int| 0 <= i < m implies #[trigger] l[i] == r[i] by {
        assert(l[i] == x[i]);
        assert(x[i] == s[i]);
    }
    assert forall|i: int| m <= i < n implies is_trailing_noise(#[trigger] l[i]) by {
        assert(l[i] == x[i]);
        assert(x[i] == s[i]);
    }
    assert(l[n] == x[n]);
    lemma_same_prefix(l, r, 0, m);
    lemma_above_after_noise(l, r, m, n);
    law_generic_order_antisymmetric(e, x, e, s);
}

// ---------------------------------------------------------------------------
// dpkg character weights
// ---------------------------------------------------------------------------

/// dpkg's character weights: `~` sorts below the end of a string, the end
/// below every letter, letters by their code, and every other character
/// that is no digit above all letters, in the order of its byte value.
pub proof fn law_dpkg_weights(x: u8, y: u8)
    ensures
        x == crate::text::TILDE ==> dpkg_weight(Some(x)) < dpkg_weight(None),
        is_alpha(x) ==> dpkg_weight(None) < dpkg_weight(Some(x)),
        is_alpha(x) && is_alpha(y) && x < y ==> dpkg_weight(Some(x)) < dpkg_weight(Some(y)),
        is_alpha(x) && !is_digit(y) && !is_alpha(y) && y != crate::text::TILDE ==> dpkg_weight(
            Some(x),
        ) < dpkg_weight(Some(y)),
        !is_digit(x) && !is_alpha(x) && x != crate::text::TILDE && !is_digit(y) && !is_alpha(y) && y
            != crate::text::TILDE && x < y ==> dpkg_weight(Some(x)) < dpkg_weight(Some(y)),
{
}

proof fn lemma_zero_run_concat(t: Seq<u8>, y: Seq<u8>)
    requires
        y.len() > 0,
        !is_digit(y[0]),
    ensures
        zero_run(t + y) == zero_run(t),
    decreases t.len(),
{
    if t.len() > 0 && t[0] == crate::text::ZERO {
        assert((t + y).drop_first() =~= t.drop_first() + y);
        lemma_zero_run_concat(t.drop_first(), y);
    } else if t.len() == 0 {
        assert(t + y =~= y);
    }
}

/// dpkg's `verrevcmp` passes over a common prefix: what comes after it
/// decides, when both rests start with a character that is no digit.
proof fn lemma_verrev_common_prefix(p: Seq<u8>, x: Seq<u8>, y: Seq<u8>)
    requires
        x.len() > 0,
        y.len() > 0,
        !is_digit(x[0]),
        !is_digit(y[0]),
    ensures
        verrev_order(p + x, p + y) == verrev_order(x, y),
    decreases p.len(),
{
    if p.len() == 0 {
        assert(p + x =~= x);
        assert(p + y =~= y);
    } else if !is_digit(p[0]) {
        assert((p + x).drop_first() =~= p.drop_first() + x);
        assert((p + y).drop_first() =~= p.drop_first() + y);
        lemma_verrev_common_prefix(p.drop_first(), x, y);
    } else {
        let (a, b) = (p + x, p + y);
        lemma_zero_run_concat(p, x);
        lemma_zero_run_concat(p, y);
        lemma_zero_run(p);
        let z = int_of(zero_run(p));
        let p1 = p.skip(z);
        assert(a.skip(z) =~= p1 + x);
        assert(b.skip(z) =~= p1 + y);
        lemma_digit_run_concat(p1, x);
        lemma_digit_run_concat(p1, y);
        lemma_digit_run(p1);
        let n = int_of(digit_run(p1));
        assert((p1 + x).take(n) =~= p1.take(n));
        assert((p1 + y).take(n) =~= p1.take(n));
        lemma_lex_order_refl(p1.take(n));
        assert((p1 + x).skip(n) =~= p1.skip(n) + x);
        assert((p1 + y).skip(n) =~= p1.skip(n) + y);
        if p[0] != crate::text::ZERO {
            assert(p1[0] == p[0]);
        }
        lemma_verrev_common_prefix(p1.skip(n), x, y);
    }
}

/// After any common prefix, dpkg puts a character that is neither a letter,
/// a digit nor `~` below another such character of larger byte value, and
/// below none of smaller value: `2.4+dfsg` < `2.4.1`, `1.0-1+deb11u1` <
/// `1.0-1.1`.
pub proof fn law_verrev_symbols_by_byte(p: Seq<u8>, c1: u8, a: Seq<u8>, c2: u8, b: Seq<u8>)
    requires
        !is_digit(c1) && !is_alpha(c1) && c1 != crate::text::TILDE,
        !is_digit(c2) && !is_alpha(c2) && c2 != crate::text::TILDE,
        c1 < c2,
    ensures
        verrev_order(p + (seq![c1] + a), p + (seq![c2] + b)) == Ordering::Less,
        verrev_order(p + (seq![c2] + b), p + (seq![c1] + a)) == Ordering::Greater,
{
    let (x, y) = (seq![c1] + a, seq![c2] + b);
    assert(x[0] == c1 && y[0] == c2);
    lemma_verrev_common_prefix(p, x, y);
    lemma_verrev_common_prefix(p, y, x);
}

// ---------------------------------------------------------------------------
// Alpine detection
// ---------------------------------------------------------------------------

/// None of the markers that auto-detection looks for before the Alpine
/// ones: `!`, `~`, `^`, `.post`, `.dev`, a `+incompatible` or `-snapshot`
/// ending.
pub open spec fn no_earlier_marker(b: Seq<u8>) -> bool {
    &&& !has_byte(b, crate::text::BANG)
    &&& !has_byte(b, crate::text::TILDE)
    &&& !has_byte(b, crate::text::CARET)
    &&& !contains_sub(b, ".post".spec_bytes())
    &&& !contains_sub(b, ".dev".spec_bytes())
    &&& !ends_with(b, "+incompatible".spec_bytes())
    &&& !ends_with(b, "-snapshot".spec_bytes())
}

/// A version whose lower-cased text holds `_alpha`, `_beta`, `_p`, `_rc`
/// or `_pre`, and none of the markers checked before them, is detected as
/// Alpine: `1.2.3_p1`, `1.0_RC2`.
pub proof fn law_alpine_underscore_markers(version: Seq<char>, m: Seq<u8>)
    requires
        m == "_alpha".spec_bytes() || m == "_beta".spec_bytes() || m == "_p".spec_bytes() || m
            == "_rc".spec_bytes() || m == "_pre".spec_bytes(),
        contains_sub(encode_utf8(lower_chars(version)), m),
        no_earlier_marker(encode_utf8(lower_chars(version))),
    ensures
        autodetect_spec(encode_utf8(lower_chars(version))) == Ecosystem::Alpine,
{
}

proof fn lemma_last_revision(b: Seq<u8>, x: Seq<u8>, r: Seq<u8>, d: Seq<u8>, i: int)
    requires
        r == seq![crate::text::DASH, crate::text::LOWER_R],
        b == x + r + d,
        all_digits(d),
        x.len() <= i <= b.len() - 2,
    ensures
        rfind_sub_from(b, r, i) == Some(int_of(x.len())),
    decreases i,
{
    if i > x.len() {
        assert(b[i] == d[i - x.len() - 2] || i == x.len() + 1);
        assert(!matches_at(b, r, i)) by {
            if matches_at(b, r, i) {
                assert(b.subrange(i, i + 2)[0] == b[i]);
            }
        }
        lemma_last_revision(b, x, r, d, i - 1);
    } else {
        assert(b.subrange(i, i + 2) =~= r);
    }
}

/// A version whose lower-cased text ends in `-r` and digits, after some
/// text, with none of the markers checked before the Alpine ones, is
/// detected as Alpine: `3.1.4-r5`, `1.0a1-r5`.
pub proof fn law_alpine_revision_suffix(version: Seq<char>, x: Seq<u8>, d: Seq<u8>)
    requires
        x.len() > 0,
        d.len() > 0,
        all_digits(d),
        encode_utf8(lower_chars(version)) == x + "-r".spec_bytes() + d,
        no_earlier_marker(encode_utf8(lower_chars(version))),
    ensures
        autodetect_spec(encode_utf8(lower_chars(version))) == Ecosystem::Alpine,
{
    reveal_strlit("-r");
    let r = "-r".spec_bytes();
    let c = "-r"@;
    assert('\0' <= c[0] <= '\u{7f}' && '\0' <= c[1] <= '\u{7f}');
    is_ascii_chars_encode_utf8(c);
    assert(r =~= seq![crate::text::DASH, crate::text::LOWER_R]);
    let b = x + r + d;
    lemma_last_revision(b, x, r, d, b.len() - 2);
    assert(b.subrange(int_of(x.len()) + 2, int_of(b.len())) =~= d);
}

// ---------------------------------------------------------------------------
// Tilde ranges
// ---------------------------------------------------------------------------

proof fn lemma_ascii_chars_concat(x: Seq<u8>, y: Seq<u8>)
    ensures
        ascii_chars(x + y) == ascii_chars(x) + ascii_chars(y),
{
    assert(ascii_chars(x + y) =~= ascii_chars(x) + ascii_chars(y));
}

/// Digits that read as a number, then a dot or the end.
proof fn lemma_number_part(n: nat, rest: Seq<u8>)
    requires
        n <= u64::MAX,
    ensures
        head_part(decimal_bytes(n) + seq![DOT] + rest, DOT) == decimal_bytes(n),
        tail_part(decimal_bytes(n) + seq![DOT] + rest, DOT) == Some(rest),
        head_part(decimal_bytes(n), DOT) == decimal_bytes(n),
        tail_part(decimal_bytes(n), DOT) is None,
        parse_u64_spec(decimal_bytes(n)) == Some(n as u64),
        !is_wildcard(decimal_bytes(n)),
{
    lemma_decimal_bytes(n);
    let d = decimal_bytes(n);
    let y = seq![DOT] + rest;
    assert forall|k: int| 0 <= k < d.len() implies d[k] != DOT by {
        assert(is_digit(d[k]));
    }
    lemma_first_pos_concat(d, y, DOT, 0);
    assert(d + seq![DOT] + rest =~= d + y);
    assert((d + y).subrange(0, int_of(d.len())) =~= d);
    assert((d + y).subrange(int_of(d.len()) + 1, int_of((d + y).len())) =~= rest);
    crate::text::lemma_first_pos(d, DOT);
    assert(is_digit(d[0]));
    if d.len() == 1 {
        assert(d != seq![crate::text::LOWER_X] && d != seq![crate::text::UPPER_X] && d != seq![
            crate::text::STAR,
        ]) by {
            assert(d[0] != crate::text::LOWER_X);
        }
    }
}

/// Digits at both ends, so that trimming keeps the text whole.
proof fn lemma_trim_ascii(b: Seq<u8>)
    requires
        b.len() > 0,
        all_ascii(b),
        !is_white_space(b[0] as char),
        !is_white_space(b.last() as char),
    ensures
        trimmed_bytes(ascii_chars(b)) == b,
        trim_chars(ascii_chars(b)) == ascii_chars(b),
{
    let c = ascii_chars(b);
    assert(c[0] == b[0] as char);
    assert(c.last() == b.last() as char);
    assert(trim_start_chars(c) == c);
    assert(trim_end_chars(c) == c);
    lemma_ascii_encode(b);
}

/// A range token: the marker `c` (written `mark`) before
/// `ma.mi.pa`; its trimmed bytes start with `c`, and what follows reads as
/// the three numbers.
proof fn lemma_range_token(c: u8, mark: Seq<char>, ma: u64, mi: u64, pa: u64)
    requires
        (c == crate::text::TILDE && mark == "~"@) || (c == crate::text::CARET && mark == "^"@),
    ensures
        ({
            let t = trimmed_bytes(mark + triple_chars(ma as nat, mi as nat, pa as nat));
            &&& t.len() > 1
            &&& t[0] == c
            &&& t != seq![crate::text::STAR]
            &&& t != seq![crate::text::LOWER_X]
            &&& t != seq![crate::text::UPPER_X]
            &&& num_prefix_spec(decode_utf8(t.drop_first())) == Some((seq![ma, mi, pa], 3nat))
        }),
{
    reveal_strlit("~");
    reveal_strlit("^");
    reveal_strlit(".");
    let (da, di, dp) = (decimal_bytes(ma as nat), decimal_bytes(mi as nat), decimal_bytes(pa as nat));
    lemma_decimal_bytes(ma as nat);
    lemma_decimal_bytes(mi as nat);
    lemma_decimal_bytes(pa as nat);
    let r = da + seq![DOT] + (di + seq![DOT] + dp);
    let bb = seq![c] + r;
    assert(mark =~= ascii_chars(seq![c]));
    assert("."@ =~= ascii_chars(seq![DOT]));
    assert(ascii_chars(r) =~= triple_chars(ma as nat, mi as nat, pa as nat));
    assert(ascii_chars(bb) =~= mark + triple_chars(ma as nat, mi as nat, pa as nat));
    assert(all_ascii(r));
    assert(all_ascii(bb));
    assert(is_digit(dp.last()));
    assert(r.last() == dp.last());
    assert(bb.last() == dp.last());
    assert(is_digit(da[0]));
    assert(r[0] == da[0]);
    lemma_trim_ascii(bb);
    assert(bb.drop_first() =~= r);
    lemma_trim_ascii(r);
    lemma_ascii_encode(r);
    encode_utf8_decode_utf8(ascii_chars(r));
    lemma_number_part(ma as nat, di + seq![DOT] + dp);
    lemma_number_part(mi as nat, dp);
    lemma_number_part(pa as nat, seq![]);
    let p3 = seq![ma, mi, pa];
    assert(seq![ma, mi].push(pa) =~= p3);
    assert(seq![ma].push(mi) =~= seq![ma, mi]);
    assert(Seq::<u64>::empty().push(ma) =~= seq![ma]);
    assert(num_prefix_from(dp, 2, seq![ma, mi]) == Some((p3, 3nat)));
    assert(num_prefix_from(di + seq![DOT] + dp, 1, seq![ma]) == Some((p3, 3nat)));
    assert(num_prefix_from(r, 0, seq![]) == Some((p3, 3nat)));
    assert(bb != seq![crate::text::STAR] && bb != seq![crate::text::LOWER_X] && bb != seq![
        crate::text::UPPER_X,
    ]);
}

/// A tilde range with a minor part allows changes of the patch level only:
/// `~ma.mi.pa` stands for `>=ma.mi.pa` and `<ma.(mi+1).0`, whatever the
/// patch, so that every `ma.mi.k` with `k >= pa` falls in it.
#[verifier::spinoff_prover]
#[verifier::rlimit(40)]
pub proof fn law_tilde_range_keeps_the_minor(ma: u64, mi: u64, pa: u64)
    requires
        mi < u64::MAX,
    ensures
        shorthand_spec("~"@ + triple_chars(ma as nat, mi as nat, pa as nat)) == Some(
            Ok::<Seq<(Seq<char>, Seq<char>)>, Seq<char>>(
                seq![
                    (">="@, triple_chars(ma as nat, mi as nat, pa as nat)),
                    ("<"@, triple_chars(ma as nat, (mi + 1) as nat, 0)),
                ],
            ),
        ),
{
    reveal(shorthand_spec);
    lemma_range_token(crate::text::TILDE, "~"@, ma, mi, pa);
}

/// A caret range allows the changes that keep its left-most non-zero
/// number: `^ma.mi.pa` stands for `>=ma.mi.pa` and `<(ma+1).0.0` when
/// `ma > 0`, `<0.(mi+1).0` when only `mi > 0`, and `<0.0.(pa+1)` otherwise.
#[verifier::spinoff_prover]
#[verifier::rlimit(40)]
pub proof fn law_caret_range_keeps_the_leftmost(ma: u64, mi: u64, pa: u64)
    requires
        ma < u64::MAX,
        mi < u64::MAX,
        pa < u64::MAX,
    ensures
        shorthand_spec("^"@ + triple_chars(ma as nat, mi as nat, pa as nat)) == Some(
            Ok::<Seq<(Seq<char>, Seq<char>)>, Seq<char>>(
                seq![
                    (">="@, triple_chars(ma as nat, mi as nat, pa as nat)),
                    (
                        "<"@,
                        if ma > 0 {
                            triple_chars((ma + 1) as nat, 0, 0)
                        } else if mi > 0 {
                            triple_chars(0, (mi + 1) as nat, 0)
                        } else {
                            triple_chars(0, 0, (pa + 1) as nat)
                        },
                    ),
                ],
            ),
        ),
{
    reveal(shorthand_spec);
    lemma_range_token(crate::text::CARET, "^"@, ma, mi, pa);
    assert(crate::text::CARET != crate::text::TILDE);
}

/// `~ma.mi` and `~ma` read as tilde ranges of two numbers and of one.
proof fn lemma_short_tilde_tokens(ma: u64, mi: u64)
    ensures
        ({
            let t = trimmed_bytes("~"@ + decimal_chars(ma as nat) + "."@ + decimal_chars(mi as nat));
            &&& t.len() > 1
            &&& t[0] == crate::text::TILDE
            &&& t != seq![crate::text::STAR]
            &&& num_prefix_spec(decode_utf8(t.drop_first())) == Some((seq![ma, mi], 3nat))
        }),
        ({
            let t = trimmed_bytes("~"@ + decimal_chars(ma as nat));
            &&& t.len() > 1
            &&& t[0] == crate::text::TILDE
            &&& t != seq![crate::text::STAR]
            &&& num_prefix_spec(decode_utf8(t.drop_first())) == Some((seq![ma], 3nat))
        }),
{
    reveal_strlit("~");
    reveal_strlit(".");
    let (da, di) = (decimal_bytes(ma as nat), decimal_bytes(mi as nat));
    lemma_decimal_bytes(ma as nat);
    lemma_decimal_bytes(mi as nat);
    assert("~"@ =~= ascii_chars(seq![crate::text::TILDE]));
    assert("."@ =~= ascii_chars(seq![DOT]));
    lemma_number_part(ma as nat, di);
    lemma_number_part(mi as nat, seq![]);
    assert(seq![ma].push(mi) =~= seq![ma, mi]);
    assert(Seq::<u64>::empty().push(ma) =~= seq![ma]);
    // two numbers
    let r = da + seq![DOT] + di;
    let bb = seq![crate::text::TILDE] + r;
    assert(ascii_chars(r) =~= decimal_chars(ma as nat) + "."@ + decimal_chars(mi as nat));
    assert(ascii_chars(bb) =~= "~"@ + decimal_chars(ma as nat) + "."@ + decimal_chars(mi as nat));
    assert(all_ascii(r) && all_ascii(bb));
    assert(is_digit(di.last()) && r.last() == di.last() && bb.last() == di.last());
    assert(is_digit(da[0]) && r[0] == da[0]);
    lemma_trim_ascii(bb);
    assert(bb.drop_first() =~= r);
    lemma_trim_ascii(r);
    lemma_ascii_encode(r);
    encode_utf8_decode_utf8(ascii_chars(r));
    assert(num_prefix_from(di, 1, seq![ma]) == Some((seq![ma, mi], 3nat)));
    assert(num_prefix_from(r, 0, seq![]) == Some((seq![ma, mi], 3nat)));
    assert(bb != seq![crate::text::STAR]);
    // one number
    let b1 = seq![crate::text::TILDE] + da;
    assert(ascii_chars(b1) =~= "~"@ + decimal_chars(ma as nat));
    assert(all_ascii(da) && all_ascii(b1));
    assert(is_digit(da.last()) && b1.last() == da.last());
    lemma_trim_ascii(b1);
    assert(b1.drop_first() =~= da);
    lemma_trim_ascii(da);
    lemma_ascii_encode(da);
    encode_utf8_decode_utf8(ascii_chars(da));
    assert(num_prefix_from(da, 0, seq![]) == Some((seq![ma], 3nat)));
    assert(b1 != seq![crate::text::STAR]);
}

/// A tilde range of two numbers keeps the minor too, one of one number
/// only the major: `~ma.mi` stands for `>=ma.mi.0` and `<ma.(mi+1).0`,
/// `~ma` for `>=ma.0.0` and `<(ma+1).0.0`.
#[verifier::spinoff_prover]
#[verifier::rlimit(40)]
pub proof fn law_short_tilde_ranges(ma: u64, mi: u64)
    requires
        ma < u64::MAX,
        mi < u64::MAX,
    ensures
        shorthand_spec("~"@ + decimal_chars(ma as nat) + "."@ + decimal_chars(mi as nat)) == Some(
            Ok::<Seq<(Seq<char>, Seq<char>)>, Seq<char>>(
                seq![
                    (">="@, triple_chars(ma as nat, mi as nat, 0)),
                    ("<"@, triple_chars(ma as nat, (mi + 1) as nat, 0)),
                ],
            ),
        ),
        shorthand_spec("~"@ + decimal_chars(ma as nat)) == Some(
            Ok::<Seq<(Seq<char>, Seq<char>)>, Seq<char>>(
                seq![
                    (">="@, triple_chars(ma as nat, 0, 0)),
                    ("<"@, triple_chars((ma + 1) as nat, 0, 0)),
                ],
            ),
        ),
{
    reveal(shorthand_spec);
    lemma_short_tilde_tokens(ma, mi);
}

/// The order of auto-detection's rules, on the lower-cased text `b` of a
/// version: `!` gives PEP 440; else `~` Debian, `^` RPM; else `.post` or
/// `.dev` PEP 440; else a `+incompatible` ending Go, a `-snapshot` ending
/// Maven; else the Alpine markers Alpine; else `+deb` or `+ubuntu` Debian.
pub proof fn law_autodetect_precedence(b: Seq<u8>)
    ensures
        has_byte(b, crate::text::BANG) ==> autodetect_spec(b) == Ecosystem::Pep440,
        !has_byte(b, crate::text::BANG) && has_byte(b, crate::text::TILDE) ==> autodetect_spec(b)
            == Ecosystem::Debian,
        !has_byte(b, crate::text::BANG) && !has_byte(b, crate::text::TILDE) && has_byte(
            b,
            crate::text::CARET,
        ) ==> autodetect_spec(b) == Ecosystem::Rpm,
        !has_byte(b, crate::text::BANG) && !has_byte(b, crate::text::TILDE) && !has_byte(
            b,
            crate::text::CARET,
        ) && (contains_sub(b, ".post".spec_bytes()) || contains_sub(b, ".dev".spec_bytes()))
            ==> autodetect_spec(b) == Ecosystem::Pep440,
        !has_byte(b, crate::text::BANG) && !has_byte(b, crate::text::TILDE) && !has_byte(
            b,
            crate::text::CARET,
        ) && !contains_sub(b, ".post".spec_bytes()) && !contains_sub(b, ".dev".spec_bytes())
            && ends_with(b, "+incompatible".spec_bytes()) ==> autodetect_spec(b) == Ecosystem::Go,
        !has_byte(b, crate::text::BANG) && !has_byte(b, crate::text::TILDE) && !has_byte(
            b,
            crate::text::CARET,
        ) && !contains_sub(b, ".post".spec_bytes()) && !contains_sub(b, ".dev".spec_bytes())
            && !ends_with(b, "+incompatible".spec_bytes()) && ends_with(b, "-snapshot".spec_bytes())
            ==> autodetect_spec(b) == Ecosystem::Maven,
        no_earlier_marker(b) && !(contains_sub(b, "_alpha".spec_bytes()) || contains_sub(
            b,
            "_beta".spec_bytes(),
        ) || contains_sub(b, "_p".spec_bytes()) || contains_sub(b, "_rc".spec_bytes())
            || contains_sub(b, "_pre".spec_bytes()) || alpine_revision(b)) && (contains_sub(
            b,
            "+deb".spec_bytes(),
        ) || contains_sub(b, "+ubuntu".spec_bytes())) ==> autodetect_spec(b) == Ecosystem::Debian,
{
}

} // verus!
