//! Version objects: a version string read by the generic parser and by the
//! strategy of its ecosystem, compared, inspected and keyed.
use std::cmp::Ordering;
use vstd::prelude::*;
use vstd::string::StringExecFns;
use vstd::string::StringSliceAdditionalSpecFns;
use vstd::utf8::*;

use crate::ordering_sign;
use crate::api::{first_text_from, is_auto, is_auto_name, lemma_first_text_from, num_or_zero};
use crate::parser::{
    autodetect_ecosystem, autodetect_spec, canon_seg, canon_segment, canon_text, canon_word, canonical,
    copy_seg, ecosystem_by_name, effective_weight, parse,
    parse_generic, parsed_from, segs_view, unsupported_ecosystem_message, Ecosystem, ParsedVersion,
    Seg, SegV,
};
use crate::strategies::{
    cmp_parsed, compare_for_ecosystem, lemma_parse_fits, lemma_parse_outcome, lemma_repr_order_same,
    parse_agrees, parse_for_ecosystem, parse_outcome, repr_order, strategy_of,
    text_effective_weight, ParsedRepr,
};
use crate::strategies::generic::{normalize, normalized, parsed_order};
use crate::text::lower_chars;

verus! {

broadcast use vstd::utf8::group_utf8_lib;

/// A version: the generic parse of its text, the ecosystem it belongs to,
/// and its parse for that ecosystem.
#[derive(Debug, Clone)]
pub struct Version {
    pub inner: ParsedVersion,
    pub eco: Ecosystem,
    pub repr: ParsedRepr,
}

/// The other side of a comparison: a version object or a version string.
#[derive(Clone, Copy)]
pub enum Operand<'a> {
    Version(&'a Version),
    Text(&'a str),
}

/// The text of an operand.
pub open spec fn operand_text(o: Operand) -> Seq<char> {
    match o {
        Operand::Version(v) => v.inner.raw@,
        Operand::Text(s) => s@,
    }
}

/// An operand whose version object, if any, is well formed.
pub open spec fn operand_wf(o: Operand) -> bool {
    match o {
        Operand::Version(v) => v.wf(),
        Operand::Text(_) => true,
    }
}

/// The message of `Version::new`, if it fails: an unknown ecosystem name,
/// or the named ecosystem's parse error.
pub open spec fn version_new_error(version: Seq<char>, ecosystem: Seq<char>) -> Option<Seq<char>> {
    if is_auto_name(ecosystem) {
        None
    } else {
        match ecosystem_by_name(lower_chars(ecosystem)) {
            None => Some(unsupported_ecosystem_message(lower_chars(ecosystem))),
            Some(e) => match parse_outcome(strategy_of(e), version) {
                Err(m) => Some(m@),
                Ok(_) => None,
            },
        }
    }
}

/// The ecosystem that `Version::new` settles on: the named one, or for
/// `auto` the detected one when it parses the text, else the generic one.
pub open spec fn version_new_eco(version: Seq<char>, ecosystem: Seq<char>) -> Ecosystem {
    if is_auto_name(ecosystem) {
        let d = autodetect_spec(encode_utf8(lower_chars(version)));
        if parse_outcome(strategy_of(d), version) is Ok {
            d
        } else {
            Ecosystem::Generic
        }
    } else {
        match ecosystem_by_name(lower_chars(ecosystem)) {
            Some(e) => e,
            None => Ecosystem::Generic,
        }
    }
}

/// The order of two version objects: by their ecosystem when they share
/// one, else generically.
pub open spec fn version_order(a: Version, b: Version) -> Ordering {
    if a.eco == b.eco {
        repr_order(strategy_of(a.eco), a.repr, b.repr)
    } else {
        parsed_order(a.inner, b.inner)
    }
}

/// The ecosystem that `Version::compare` uses: its own, unless another is
/// named.
pub open spec fn compare_eco(own: Ecosystem, ecosystem: Option<Seq<char>>) -> Result<
    Ecosystem,
    Seq<char>,
> {
    match ecosystem {
        None => Ok(own),
        Some(n) => if is_auto_name(n) {
            Ok(own)
        } else {
            match ecosystem_by_name(lower_chars(n)) {
                Some(e) => Ok(e),
                None => Err(unsupported_ecosystem_message(lower_chars(n))),
            }
        },
    }
}

pub open spec fn opt_view(o: Option<&str>) -> Option<Seq<char>> {
    match o {
        Some(s) => Some(s@),
        None => None,
    }
}

/// `Version::compare`: both texts parsed for the chosen ecosystem, then
/// -1, 0 or 1.
pub open spec fn version_compare_spec(v: Version, other: Operand, ecosystem: Option<Seq<char>>) -> Result<
    i32,
    Seq<char>,
> {
    match compare_eco(v.eco, ecosystem) {
        Err(m) => Err(m),
        Ok(e) => {
            let s = strategy_of(e);
            match parse_outcome(s, v.inner.raw@) {
                Err(m) => Err(m@),
                Ok(l) => match parse_outcome(s, operand_text(other)) {
                    Err(m) => Err(m@),
                    Ok(r) => Ok(ordering_sign(repr_order(s, l, r))),
                },
            }
        },
    }
}

/// -1, 0 or 1 as `o` is less, equal or greater.
pub fn sign_of(o: Ordering) -> (r: i32)
    ensures
        r == ordering_sign(o),
{
    match o {
        Ordering::Less => -1,
        Ordering::Equal => 0,
        Ordering::Greater => 1,
    }
}

/// An operand parsed for `eco`: a version object's text is read again.
pub fn extract_parsed_for_ecosystem(obj: Operand, eco: Ecosystem) -> (r: Result<ParsedRepr, String>)
    ensures
        parse_agrees(strategy_of(eco), operand_text(obj), r),
        r matches Ok(p) ==> crate::strategies::repr_fits(strategy_of(eco), p),
{
    proof {
        reveal(parse_agrees);
    }
    match obj {
        Operand::Version(v) => {
            if eco == Ecosystem::Generic {
                Ok(ParsedRepr::Generic(parse_generic(v.inner.raw.as_str())))
            } else {
                parse_for_ecosystem(eco, v.inner.raw.as_str())
            }
        },
        Operand::Text(s) => parse_for_ecosystem(eco, s),
    }
}

/// The ecosystem that `name` picks for an operand: for `auto` a version
/// object's own, or the one detected from a string.
pub open spec fn eco_for_operand(name: Seq<char>, obj: Operand) -> Result<Ecosystem, Seq<char>> {
    if is_auto_name(name) {
        match obj {
            Operand::Version(v) => Ok(v.eco),
            Operand::Text(s) => Ok(autodetect_spec(encode_utf8(lower_chars(s@)))),
        }
    } else {
        match ecosystem_by_name(lower_chars(name)) {
            Some(e) => Ok(e),
            None => Err(unsupported_ecosystem_message(lower_chars(name))),
        }
    }
}

/// The ecosystem that `ecosystem` picks for `obj`.
pub fn resolve_eco_for_obj(ecosystem: &str, obj: Operand) -> (r: Result<Ecosystem, String>)
    ensures
        match eco_for_operand(ecosystem@, obj) {
            Ok(e) => r == Ok::<Ecosystem, String>(e),
            Err(m) => r matches Err(e) && e@ == m,
        },
{
    if is_auto(ecosystem) {
        match obj {
            Operand::Version(v) => Ok(v.eco),
            Operand::Text(s) => Ok(autodetect_ecosystem(s)),
        }
    } else {
        Ecosystem::from_str(ecosystem)
    }
}

/// The ecosystem for a list whose first item is `first`: for `auto` that
/// of the first item, or the generic one for an empty list.
pub open spec fn eco_for_list(name: Seq<char>, first: Option<Operand>) -> Result<Ecosystem, Seq<char>> {
    match first {
        Some(o) => eco_for_operand(name, o),
        None => if is_auto_name(name) {
            Ok(Ecosystem::Generic)
        } else {
            match ecosystem_by_name(lower_chars(name)) {
                Some(e) => Ok(e),
                None => Err(unsupported_ecosystem_message(lower_chars(name))),
            }
        },
    }
}

pub fn resolve_eco(ecosystem: &str, first: Option<Operand>) -> (r: Result<Ecosystem, String>)
    ensures
        match eco_for_list(ecosystem@, first) {
            Ok(e) => r == Ok::<Ecosystem, String>(e),
            Err(m) => r matches Err(e) && e@ == m,
        },
{
    match first {
        Some(o) => resolve_eco_for_obj(ecosystem, o),
        None => {
            if is_auto(ecosystem) {
                Ok(Ecosystem::Generic)
            } else {
                Ecosystem::from_str(ecosystem)
            }
        },
    }
}

/// Comparing two operands under `name` (for `auto`, the ecosystem of the
/// left one): -1, 0 or 1, or the first error.
pub open spec fn compare_operands_spec(a: Operand, b: Operand, name: Seq<char>) -> Result<
    i32,
    Seq<char>,
> {
    match eco_for_operand(name, a) {
        Err(m) => Err(m),
        Ok(e) => {
            let s = strategy_of(e);
            match parse_outcome(s, operand_text(a)) {
                Err(m) => Err(m@),
                Ok(pa) => match parse_outcome(s, operand_text(b)) {
                    Err(m) => Err(m@),
                    Ok(pb) => Ok(ordering_sign(repr_order(s, pa, pb))),
                },
            }
        },
    }
}

/// Compares two operands, each a version object or a string, under
/// `ecosystem`: -1, 0 or 1.
pub fn compare_operands(a: Operand, b: Operand, ecosystem: &str) -> (r: Result<i32, String>)
    ensures
        match compare_operands_spec(a, b, ecosystem@) {
            Ok(v) => r == Ok::<i32, String>(v),
            Err(m) => r matches Err(e) && e@ == m,
        },
{
    let eco = match resolve_eco_for_obj(ecosystem, a) {
        Ok(e) => e,
        Err(m) => {
            return Err(m);
        },
    };
    let ghost s = strategy_of(eco);
    let ra = extract_parsed_for_ecosystem(a, eco);
    proof {
        lemma_parse_outcome(s, operand_text(a), ra);
    }
    let pa = match ra {
        Ok(p) => p,
        Err(m) => {
            return Err(m);
        },
    };
    let rb = extract_parsed_for_ecosystem(b, eco);
    proof {
        lemma_parse_outcome(s, operand_text(b), rb);
    }
    let pb = match rb {
        Ok(p) => p,
        Err(m) => {
            return Err(m);
        },
    };
    proof {
        lemma_repr_order_same(
            s,
            pa,
            pb,
            parse_outcome(s, operand_text(a))->Ok_0,
            parse_outcome(s, operand_text(b))->Ok_0,
        );
    }
    Ok(sign_of(compare_for_ecosystem(eco, &pa, &pb)))
}

// ---------------------------------------------------------------------------
// Sort keys
// ---------------------------------------------------------------------------

/// `n` as an `i64`, or `i64::MAX` when it is larger.
pub open spec fn sat_i64(n: u64) -> i64 {
    if n <= i64::MAX {
        n as i64
    } else {
        i64::MAX
    }
}

fn sat_i64_exec(n: u64) -> (r: i64)
    ensures
        r == sat_i64(n),
{
    if n <= 9223372036854775807u64 {
        n as i64
    } else {
        i64::MAX
    }
}

fn weight_i64(w: i32) -> (r: i64)
    ensures
        r == w as i64,
{
    w as i64
}

/// Where the run of zeros just before position `p` of `s` starts.
pub open spec fn zero_tail_start(s: Seq<SegV>, p: int) -> int
    decreases p,
{
    if p > 0 && p <= s.len() && s[p - 1] == SegV::Num(0) {
        zero_tail_start(s, p - 1)
    } else {
        p
    }
}

/// The segments a sort key is made of: the normalized segments, less the
/// zeros just before the first word.
pub open spec fn key_segments(s: Seq<SegV>) -> Seq<SegV> {
    match first_text_from(s, 0) {
        Some(p) => s.subrange(0, zero_tail_start(s, p)) + s.subrange(p, s.len() as int),
        None => s,
    }
}

/// The key entry of one segment: `(2, n, "")` for a number, `(1, weight,
/// word)` for a word, in the spelling of its weight.
pub open spec fn seg_key(x: SegV) -> (i64, i64, Seq<char>) {
    match x {
        SegV::Num(n) => (2, sat_i64(n), ""@),
        SegV::Text(t) => (1, effective_weight(t) as i64, canon_word(t)),
    }
}

/// The sort key of a version: its epoch, its key segments, and a closing
/// `(1, 30, "")` that stands for the release itself.
pub open spec fn sort_key_spec(epoch: u64, segs: Seq<SegV>) -> Seq<(i64, i64, Seq<char>)> {
    seq![(2i64, sat_i64(epoch), ""@)] + key_segments(normalize(segs)).map_values(
        |x: SegV| seg_key(x),
    ) + seq![(1i64, 30i64, ""@)]
}

pub open spec fn key_view(v: Seq<(i64, i64, String)>) -> Seq<(i64, i64, Seq<char>)> {
    Seq::new(v.len(), |i: int| (v[i].0, v[i].1, v[i].2@))
}

pub proof fn lemma_zero_tail_start(s: Seq<SegV>, p: int)
    requires
        0 <= p <= s.len(),
    ensures
        0 <= zero_tail_start(s, p) <= p,
        forall|k: int| zero_tail_start(s, p) <= k < p ==> s[k] == SegV::Num(0),
        zero_tail_start(s, p) > 0 ==> s[zero_tail_start(s, p) - 1] != SegV::Num(0),
    decreases p,
{
    if p > 0 && s[p - 1] == SegV::Num(0) {
        lemma_zero_tail_start(s, p - 1);
    }
}

/// The position of the first word in `segs`.
fn first_text_in(segs: &[Seg]) -> (r: Option<usize>)
    ensures
        match r {
            Some(p) => first_text_from(segs_view(segs@), 0) == Some(p as int),
            None => first_text_from(segs_view(segs@), 0) is None,
        },
{
    let mut i: usize = 0;
    while i < segs.len()
        invariant
            i <= segs@.len(),
            first_text_from(segs_view(segs@), 0) == first_text_from(segs_view(segs@), i as int),
        decreases segs.len() - i,
    {
        match &segs[i] {
            Seg::Text(_) => {
                return Some(i);
            },
            Seg::Num(_) => {},
        }
        i += 1;
    }
    None
}

/// The leading numbers of `s`, up to its first word.
pub open spec fn release_nums(s: Seq<SegV>) -> Seq<u64>
    decreases s.len(),
{
    if s.len() > 0 && s[0] is Num {
        seq![s[0]->Num_0] + release_nums(s.drop_first())
    } else {
        seq![]
    }
}

/// The position that a Python-style index `idx` (negative from the end)
/// names among `len` segments, if any.
pub open spec fn segment_position(len: int, idx: int) -> Option<int> {
    let pos: int = if idx < 0 {
        len + idx
    } else {
        idx
    };
    if 0 <= pos < len {
        Some(pos)
    } else {
        None
    }
}

/// The rich comparison operators.
#[derive(Debug, Clone, Copy, PartialEq, Eq, Structural)]
pub enum CompareOp {
    Lt,
    Le,
    Eq,
    Ne,
    Gt,
    Ge,
}

/// Whether an order meets a rich comparison operator.
pub open spec fn op_result_spec(op: CompareOp, o: Ordering) -> bool {
    match op {
        CompareOp::Lt => o == Ordering::Less,
        CompareOp::Le => o != Ordering::Greater,
        CompareOp::Eq => o == Ordering::Equal,
        CompareOp::Ne => o != Ordering::Equal,
        CompareOp::Gt => o == Ordering::Greater,
        CompareOp::Ge => o != Ordering::Less,
    }
}

pub fn op_result(op: CompareOp, o: Ordering) -> (r: bool)
    ensures
        r == op_result_spec(op, o),
{
    let less = match o {
        Ordering::Less => true,
        _ => false,
    };
    let greater = match o {
        Ordering::Greater => true,
        _ => false,
    };
    match op {
        CompareOp::Lt => less,
        CompareOp::Le => !greater,
        CompareOp::Eq => !less && !greater,
        CompareOp::Ne => less || greater,
        CompareOp::Gt => greater,
        CompareOp::Ge => !less,
    }
}

fn is_zero_seg(x: &Seg) -> (r: bool)
    ensures
        r == (x@ == SegV::Num(0)),
{
    match x {
        Seg::Num(z) => *z == 0,
        Seg::Text(_) => false,
    }
}

fn push_key(out: &mut Vec<(i64, i64, String)>, x: &Seg)
    ensures
        key_view(final(out)@) == key_view(old(out)@).push(seg_key(x@)),
{
    match x {
        Seg::Num(n) => out.push((2, sat_i64_exec(*n), "".to_owned())),
        Seg::Text(t) => out.push(
            (1, weight_i64(text_effective_weight(t.as_str())), canon_text(t.as_str())),
        ),
    }
    assert(key_view(final(out)@) =~= key_view(old(out)@).push(seg_key(x@)));
}

impl Version {
    /// Both parses are of the version's text.
    pub open spec fn wf(self) -> bool {
        &&& parsed_from(self.inner, self.inner.raw@)
        &&& parse_agrees(strategy_of(self.eco), self.inner.raw@, Ok(self.repr))
    }

    /// A version of `ecosystem` (a name, or `auto` to detect it and fall
    /// back to the generic reading when the detected one does not parse).
    pub fn new(version: &str, ecosystem: &str) -> (r: Result<Version, String>)
        ensures
            match version_new_error(version@, ecosystem@) {
                Some(m) => r matches Err(e) && e@ == m,
                None => r matches Ok(v) && v.wf() && v.inner.raw@ == version@ && v.eco
                    == version_new_eco(version@, ecosystem@),
            },
    {
        proof {
            reveal(parse_agrees);
        }
        let inner = parse(version);
        if is_auto(ecosystem) {
            let detected = autodetect_ecosystem(version);
            let res = parse_for_ecosystem(detected, version);
            proof {
                lemma_parse_outcome(strategy_of(detected), version@, res);
            }
            match res {
                Ok(repr) => Ok(Version { inner, eco: detected, repr }),
                Err(_) => Ok(
                    Version {
                        inner,
                        eco: Ecosystem::Generic,
                        repr: ParsedRepr::Generic(parse_generic(version)),
                    },
                ),
            }
        } else {
            let eco = match Ecosystem::from_str(ecosystem) {
                Ok(e) => e,
                Err(m) => {
                    return Err(m);
                },
            };
            let res = parse_for_ecosystem(eco, version);
            proof {
                lemma_parse_outcome(strategy_of(eco), version@, res);
            }
            match res {
                Ok(repr) => Ok(Version { inner, eco, repr }),
                Err(m) => Err(m),
            }
        }
    }

    /// Compares with another version object: by the shared ecosystem, or
    /// generically when the ecosystems differ.
    pub fn richcmp_ord(&self, other: &Version) -> (r: Ordering)
        requires
            self.wf(),
            other.wf(),
        ensures
            r == version_order(*self, *other),
    {
        proof {
            lemma_parse_fits(strategy_of(self.eco), self.inner.raw@, self.repr);
            lemma_parse_fits(strategy_of(other.eco), other.inner.raw@, other.repr);
        }
        if self.eco == other.eco {
            compare_for_ecosystem(self.eco, &self.repr, &other.repr)
        } else {
            cmp_parsed(&self.inner, &other.inner)
        }
    }

    /// Compares with a version string read in this version's ecosystem.
    pub fn cmp_with_str(&self, other: &str) -> (r: Result<Ordering, String>)
        requires
            self.wf(),
        ensures
            match parse_outcome(strategy_of(self.eco), other@) {
                Err(m) => r matches Err(e) && e@ == m@,
                Ok(p) => r == Ok::<Ordering, String>(repr_order(strategy_of(self.eco), self.repr, p)),
            },
    {
        let ghost s = strategy_of(self.eco);
        let res = parse_for_ecosystem(self.eco, other);
        proof {
            lemma_parse_outcome(s, other@, res);
            lemma_parse_fits(s, self.inner.raw@, self.repr);
        }
        match res {
            Ok(p) => {
                proof {
                    lemma_repr_order_same(s, self.repr, p, self.repr, parse_outcome(s, other@)->Ok_0);
                }
                Ok(compare_for_ecosystem(self.eco, &self.repr, &p))
            },
            Err(m) => Err(m),
        }
    }

    /// Compares with `other` under `ecosystem` (by default, or for `auto`,
    /// this version's own): -1, 0 or 1.
    pub fn compare(&self, other: Operand, ecosystem: Option<&str>) -> (r: Result<i32, String>)
        requires
            self.wf(),
        ensures
            match version_compare_spec(*self, other, opt_view(ecosystem)) {
                Ok(v) => r == Ok::<i32, String>(v),
                Err(m) => r matches Err(e) && e@ == m,
            },
    {
        let eco = match ecosystem {
            None => self.eco,
            Some(n) => {
                if is_auto(n) {
                    self.eco
                } else {
                    match Ecosystem::from_str(n) {
                        Ok(e) => e,
                        Err(m) => {
                            return Err(m);
                        },
                    }
                }
            },
        };
        let ghost s = strategy_of(eco);
        let ghost raw = self.inner.raw@;
        proof {
            lemma_parse_outcome(strategy_of(self.eco), raw, Ok(self.repr));
        }
        if eco == self.eco {
            let right = extract_parsed_for_ecosystem(other, eco);
            proof {
                lemma_parse_outcome(s, operand_text(other), right);
                lemma_parse_fits(s, raw, self.repr);
            }
            match right {
                Ok(p) => {
                    proof {
                        lemma_repr_order_same(
                            s,
                            self.repr,
                            p,
                            parse_outcome(s, raw)->Ok_0,
                            parse_outcome(s, operand_text(other))->Ok_0,
                        );
                    }
                    Ok(sign_of(compare_for_ecosystem(eco, &self.repr, &p)))
                },
                Err(m) => Err(m),
            }
        } else {
            let left = parse_for_ecosystem(eco, self.inner.raw.as_str());
            proof {
                lemma_parse_outcome(s, raw, left);
            }
            let left = match left {
                Ok(p) => p,
                Err(m) => {
                    return Err(m);
                },
            };
            let right = extract_parsed_for_ecosystem(other, eco);
            proof {
                lemma_parse_outcome(s, operand_text(other), right);
            }
            match right {
                Ok(p) => {
                    proof {
                        lemma_repr_order_same(
                            s,
                            left,
                            p,
                            parse_outcome(s, raw)->Ok_0,
                            parse_outcome(s, operand_text(other))->Ok_0,
                        );
                    }
                    Ok(sign_of(compare_for_ecosystem(eco, &left, &p)))
                },
                Err(m) => Err(m),
            }
        }
    }

    /// The sort key: tuples that order as the generic comparison does. Zeros
    /// just before the first word are left out, so that `1.0.0-alpha` sorts
    /// below `1.0.0` and `1.0.0-beta`; the generic comparison is not
    /// transitive, so no key can match it on every pair of versions.
    pub fn sort_key(&self) -> (r: Vec<(i64, i64, String)>)
        ensures
            key_view(r@) == sort_key_spec(self.inner.epoch, segs_view(self.inner.segments@)),
    {
        let segs = normalized(self.inner.segments.as_slice());
        let ghost sv = segs_view(segs@);
        let n = segs.len();
        let first_text = first_text_in(segs);
        proof {
            lemma_first_text_from(sv, 0);
        }
        let (pre_end, suf_start) = match first_text {
            Some(pos) => {
                let mut end = pos;
                while end > 0 && is_zero_seg(&segs[end - 1])
                    invariant
                        end <= pos < n,
                        n == segs@.len(),
                        sv == segs_view(segs@),
                        zero_tail_start(sv, pos as int) == zero_tail_start(sv, end as int),
                    decreases end,
                {
                    end -= 1;
                }
                (end, pos)
            },
            None => (n, n),
        };
        let mut out: Vec<(i64, i64, String)> = Vec::new();
        out.push((2, sat_i64_exec(self.inner.epoch), "".to_owned()));
        let ghost ks = key_segments(sv);
        proof {
            assert(key_view(out@) =~= seq![(2i64, sat_i64(self.inner.epoch), ""@)]);
            match first_text_from(sv, 0) {
                Some(p) => {
                    lemma_zero_tail_start(sv, p);
                    assert(ks =~= sv.subrange(0, pre_end as int) + sv.subrange(
                        suf_start as int,
                        n as int,
                    ));
                },
                None => {
                    assert(ks =~= sv.subrange(0, pre_end as int) + sv.subrange(
                        suf_start as int,
                        n as int,
                    ));
                },
            }
        }
        let mut j: usize = 0;
        while j < pre_end
            invariant
                pre_end <= suf_start <= n,
                n == segs@.len(),
                sv == segs_view(segs@),
                j <= pre_end,
                key_view(out@) == seq![(2i64, sat_i64(self.inner.epoch), ""@)] + sv.subrange(
                    0,
                    j as int,
                ).map_values(|x: SegV| seg_key(x)),
            decreases pre_end - j,
        {
            push_key(&mut out, &segs[j]);
            assert(sv.subrange(0, j + 1).map_values(|x: SegV| seg_key(x)) =~= sv.subrange(
                0,
                j as int,
            ).map_values(|x: SegV| seg_key(x)).push(seg_key(sv[j as int])));
            j += 1;
        }
        let mut k: usize = suf_start;
        while k < n
            invariant
                pre_end <= suf_start <= k <= n,
                n == segs@.len(),
                sv == segs_view(segs@),
                key_view(out@) == seq![(2i64, sat_i64(self.inner.epoch), ""@)] + (sv.subrange(
                    0,
                    pre_end as int,
                ) + sv.subrange(suf_start as int, k as int)).map_values(|x: SegV| seg_key(x)),
            decreases n - k,
        {
            push_key(&mut out, &segs[k]);
            assert((sv.subrange(0, pre_end as int) + sv.subrange(suf_start as int, k + 1)).map_values(
                |x: SegV| seg_key(x),
            ) =~= (sv.subrange(0, pre_end as int) + sv.subrange(
                suf_start as int,
                k as int,
            )).map_values(|x: SegV| seg_key(x)).push(seg_key(sv[k as int])));
            k += 1;
        }
        out.push((1, 30, "".to_owned()));
        assert(key_view(out@) =~= sort_key_spec(
            self.inner.epoch,
            segs_view(self.inner.segments@),
        ));
        out
    }

    /// A rich comparison with a version object (by [`Version::richcmp_ord`])
    /// or a string (read in this version's ecosystem).
    pub fn richcmp(&self, other: Operand, op: CompareOp) -> (r: Result<bool, String>)
        requires
            self.wf(),
            operand_wf(other),
        ensures
            match other {
                Operand::Version(v) => r == Ok::<bool, String>(
                    op_result_spec(op, version_order(*self, *v)),
                ),
                Operand::Text(t) => match parse_outcome(strategy_of(self.eco), t@) {
                    Err(m) => r matches Err(e) && e@ == m@,
                    Ok(p) => r == Ok::<bool, String>(
                        op_result_spec(op, repr_order(strategy_of(self.eco), self.repr, p)),
                    ),
                },
            },
    {
        let ord = match other {
            Operand::Version(v) => self.richcmp_ord(v),
            Operand::Text(t) => match self.cmp_with_str(t) {
                Ok(o) => o,
                Err(m) => {
                    return Err(m);
                },
            },
        };
        Ok(op_result(op, ord))
    }

    /// The key for hashing: the epoch and the normalized segments of the
    /// generic reading, each word in the spelling of its weight. Versions
    /// that compare equal by a generic reading share it; under the RPM
    /// order, where `+` separates as `.` does, `1.0+1` equals `1.0.1` yet
    /// the keys differ.
    pub fn hash_key(&self) -> (r: (u64, Vec<Seg>))
        ensures
            r.0 == self.inner.epoch,
            segs_view(r.1@) == canonical(normalize(segs_view(self.inner.segments@))),
    {
        let segs = normalized(self.inner.segments.as_slice());
        let ghost sv = segs_view(segs@);
        let mut out: Vec<Seg> = Vec::new();
        let mut i: usize = 0;
        while i < segs.len()
            invariant
                i <= segs@.len(),
                sv == segs_view(segs@),
                segs_view(out@) =~= canonical(sv.subrange(0, i as int)),
            decreases segs.len() - i,
        {
            let ghost before = segs_view(out@);
            let c = canon_segment(&segs[i]);
            out.push(c);
            assert(segs_view(out@) =~= before.push(out@.last()@));
            assert(canonical(sv.subrange(0, i + 1)) =~= canonical(sv.subrange(0, i as int)).push(
                canon_seg(sv[i as int]),
            ));
            i += 1;
        }
        assert(sv.subrange(0, segs@.len() as int) =~= sv);
        (self.inner.epoch, out)
    }

    /// The text the version was made from.
    pub fn raw(&self) -> (r: &str)
        ensures
            r@ == self.inner.raw@,
    {
        self.inner.raw.as_str()
    }

    /// The canonical name of the version's ecosystem.
    pub fn ecosystem(&self) -> (r: &'static str)
        ensures
            r@ == crate::parser::ecosystem_name(self.eco),
    {
        self.eco.as_str()
    }

    pub fn epoch(&self) -> (r: u64)
        ensures
            r == self.inner.epoch,
    {
        self.inner.epoch
    }

    /// The build metadata after `+`.
    pub fn build(&self) -> (r: &str)
        ensures
            r@ == self.inner.build@,
    {
        self.inner.build.as_str()
    }

    pub fn is_prerelease(&self) -> (r: bool)
        ensures
            r == self.inner.is_prerelease,
    {
        self.inner.is_prerelease
    }

    pub fn is_postrelease(&self) -> (r: bool)
        ensures
            r == self.inner.is_postrelease,
    {
        self.inner.is_postrelease
    }

    /// A version is stable when it is no pre-release.
    pub fn is_stable(&self) -> (r: bool)
        ensures
            r == !self.inner.is_prerelease,
    {
        !self.inner.is_prerelease
    }

    /// The number of segments.
    pub fn count(&self) -> (r: usize)
        ensures
            r == self.inner.segments@.len(),
    {
        self.inner.segments.len()
    }

    /// Whether the version has any segment.
    pub fn is_nonempty(&self) -> (r: bool)
        ensures
            r == (self.inner.segments@.len() > 0),
    {
        self.inner.segments.len() > 0
    }

    /// The first segment when it is a number, else 0.
    pub fn major(&self) -> (r: u64)
        ensures
            r == num_or_zero(segs_view(self.inner.segments@), 0),
    {
        if self.inner.segments.len() > 0 {
            match &self.inner.segments[0] {
                Seg::Num(n) => *n,
                Seg::Text(_) => 0,
            }
        } else {
            0
        }
    }

    /// The second segment when it is a number, else 0.
    pub fn minor(&self) -> (r: u64)
        ensures
            r == num_or_zero(segs_view(self.inner.segments@), 1),
    {
        if self.inner.segments.len() > 1 {
            match &self.inner.segments[1] {
                Seg::Num(n) => *n,
                Seg::Text(_) => 0,
            }
        } else {
            0
        }
    }

    /// The third segment when it is a number, else 0.
    pub fn patch(&self) -> (r: u64)
        ensures
            r == num_or_zero(segs_view(self.inner.segments@), 2),
    {
        if self.inner.segments.len() > 2 {
            match &self.inner.segments[2] {
                Seg::Num(n) => *n,
                Seg::Text(_) => 0,
            }
        } else {
            0
        }
    }

    /// A copy of the segments.
    pub fn segments(&self) -> (r: Vec<Seg>)
        ensures
            segs_view(r@) == segs_view(self.inner.segments@),
    {
        let segs = &self.inner.segments;
        let mut out: Vec<Seg> = Vec::new();
        let mut i: usize = 0;
        while i < segs.len()
            invariant
                i <= segs@.len(),
                segs_view(out@) =~= segs_view(segs@).subrange(0, i as int),
            decreases segs.len() - i,
        {
            let ghost before = segs_view(out@);
            let c = copy_seg(&segs[i]);
            out.push(c);
            assert(segs_view(out@) =~= before.push(out@.last()@));
            assert(segs_view(out@) =~= segs_view(segs@).subrange(0, i + 1));
            i += 1;
        }
        assert(segs_view(segs@).subrange(0, segs@.len() as int) =~= segs_view(segs@));
        out
    }

    /// The leading numbers, up to the first word.
    pub fn release(&self) -> (r: Vec<u64>)
        ensures
            r@ == release_nums(segs_view(self.inner.segments@)),
    {
        let segs = &self.inner.segments;
        let ghost sv = segs_view(segs@);
        let mut out: Vec<u64> = Vec::new();
        let mut i: usize = 0;
        assert(sv.skip(0) =~= sv);
        assert(out@ + release_nums(sv) =~= release_nums(sv));
        while i < segs.len()
            invariant
                i <= segs@.len(),
                sv == segs_view(segs@),
                sv == segs_view(self.inner.segments@),
                release_nums(sv) == out@ + release_nums(sv.skip(i as int)),
            decreases segs.len() - i,
        {
            assert(sv.skip(i as int)[0] == sv[i as int]);
            assert(sv.skip(i as int).drop_first() =~= sv.skip(i + 1));
            let ghost old_out = out@;
            match &segs[i] {
                Seg::Num(n) => {
                    out.push(*n);
                },
                Seg::Text(_) => {
                    assert(sv[i as int] == segs@[i as int]@);
                    assert(release_nums(sv.skip(i as int)) =~= Seq::<u64>::empty());
                    assert(out@ + release_nums(sv.skip(i as int)) =~= out@);
                    return out;
                },
            }
            assert(out@ =~= old_out.push(sv[i as int]->Num_0));
            assert(release_nums(sv.skip(i as int)) =~= seq![sv[i as int]->Num_0] + release_nums(sv.skip(i + 1)));
            assert(out@ + release_nums(sv.skip(i + 1)) =~= old_out + release_nums(sv.skip(i as int)));
            i += 1;
        }
        assert(out@ + release_nums(sv.skip(i as int)) =~= out@);
        out
    }

    /// The segment that a Python-style index names (negative counts from
    /// the end), if any.
    pub fn segment_index(&self, idx: isize) -> (r: Option<usize>)
        ensures
            match segment_position(self.inner.segments@.len() as int, idx as int) {
                Some(p) => r == Some(p as usize),
                None => r is None,
            },
    {
        let len = self.inner.segments.len();
        if idx >= 0 {
            let u = idx as usize;
            if u < len {
                Some(u)
            } else {
                None
            }
        } else {
            let back: usize = ((-(idx + 1)) as usize) + 1;
            if back <= len {
                Some(len - back)
            } else {
                None
            }
        }
    }

    /// `Version('raw')`.
    pub fn repr_text(&self) -> (r: String)
        ensures
            r@ == "Version("@ + "'"@ + self.inner.raw@ + "'"@ + ")"@,
    {
        let mut m = crate::strategies::semver::with_quoted("Version(", self.inner.raw.as_str());
        m.append(")");
        m
    }
}

} // verus!
