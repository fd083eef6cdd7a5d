//! Operations on lists of versions: sorting, the largest and smallest, the
//! stable ones, and comparisons in bulk. Results name the items by their
//! positions in the input.
use std::cmp::Ordering;
use vstd::prelude::*;

use crate::ordering_sign;
use crate::api::{is_auto, is_auto_name};
use crate::laws::law_repr_order_antisymmetric;
use crate::parser::{
    autodetect_ecosystem, autodetect_spec, ecosystem_by_name, generic_input, has_pre_segment, parse,
    segments_of, unsupported_ecosystem_message, Ecosystem,
};
use crate::strategies::{
    compare_for_ecosystem, lemma_parse_outcome, lemma_repr_order_same, parse_outcome, repr_fits,
    repr_order, same_repr, strategy_of, ParsedRepr, Strategy,
};
use crate::text::{int_of, ix, lower_chars};
use crate::version::{
    eco_for_list, extract_parsed_for_ecosystem, operand_text, resolve_eco, sign_of, Operand,
};

verus! {

/// The texts of a list of operands.
pub open spec fn operand_texts(items: Seq<Operand>) -> Seq<Seq<char>> {
    Seq::new(items.len(), |i: int| operand_text(items[i]))
}

/// The first parse error among `texts` under strategy `s`, if any.
pub open spec fn first_parse_error(s: Strategy, texts: Seq<Seq<char>>) -> Option<Seq<char>>
    decreases texts.len(),
{
    if texts.len() == 0 {
        None
    } else {
        match parse_outcome(s, texts[0]) {
            Err(m) => Some(m@),
            Ok(_) => first_parse_error(s, texts.drop_first()),
        }
    }
}

/// `v` holds, item by item, what strategy `s` makes of `texts`.
pub open spec fn parsed_all(s: Strategy, texts: Seq<Seq<char>>, v: Seq<ParsedRepr>) -> bool {
    &&& v.len() == texts.len()
    &&& forall|i: int|
        0 <= i < v.len() ==> parse_outcome(s, #[trigger] texts[i]) is Ok && crate::strategies::same_repr(
            v[i],
            parse_outcome(s, texts[i])->Ok_0,
        ) && repr_fits(s, v[i])
}

/// Parses every item for `eco`, stopping at the first error.
pub fn parse_all(items: &Vec<Operand>, eco: Ecosystem) -> (r: Result<Vec<ParsedRepr>, String>)
    ensures
        match first_parse_error(strategy_of(eco), operand_texts(items@)) {
            Some(m) => r matches Err(e) && e@ == m,
            None => r matches Ok(v) && parsed_all(strategy_of(eco), operand_texts(items@), v@),
        },
{
    let ghost s = strategy_of(eco);
    let ghost texts = operand_texts(items@);
    let mut out: Vec<ParsedRepr> = Vec::new();
    let mut i: usize = 0;
    assert(texts.skip(0) =~= texts);
    while i < items.len()
        invariant
            i <= items@.len(),
            texts == operand_texts(items@),
            s == strategy_of(eco),
            first_parse_error(s, texts) == first_parse_error(s, texts.skip(i as int)),
            parsed_all(s, texts.subrange(0, i as int), out@),
        decreases items.len() - i,
    {
        let res = extract_parsed_for_ecosystem(items[i], eco);
        proof {
            lemma_parse_outcome(s, texts[i as int], res);
            assert(texts.skip(i as int)[0] == texts[i as int]);
            assert(texts.skip(i as int).drop_first() =~= texts.skip(i + 1));
        }
        match res {
            Ok(p) => {
                let ghost before = out@;
                out.push(p);
                proof {
                    assert forall|k: int| 0 <= k < out@.len() implies parse_outcome(
                        s,
                        #[trigger] texts.subrange(0, i + 1)[k],
                    ) is Ok && crate::strategies::same_repr(
                        out@[k],
                        parse_outcome(s, texts.subrange(0, i + 1)[k])->Ok_0,
                    ) && repr_fits(s, out@[k]) by {
                        if k < i {
                            assert(texts.subrange(0, i + 1)[k] == texts.subrange(0, i as int)[k]);
                            assert(out@[k] == before[k]);
                        }
                    }
                }
            },
            Err(m) => {
                return Err(m);
            },
        }
        i += 1;
    }
    proof {
        assert(texts.subrange(0, i as int) =~= texts);
        assert(texts.skip(i as int).len() == 0);
    }
    Ok(out)
}

/// `w` lists every position below `n` exactly once.
#[verifier::opaque]
pub open spec fn is_permutation(w: Seq<usize>, n: int) -> bool {
    &&& w.len() == n
    &&& forall|k: int| 0 <= k < w.len() ==> #[trigger] w[k] < n
    &&& forall|j: int, k: int| 0 <= j < k < w.len() ==> #[trigger] w[j] != #[trigger] w[k]
}

/// The neighbours at `k` and `k + 1` of `w` are in order: the first is not
/// greater, and if they are equal the earlier item comes first.
pub open spec fn pair_in_order(s: Strategy, reprs: Seq<ParsedRepr>, w: Seq<usize>, k: int) -> bool {
    let o = repr_order(s, reprs[ix(w[k])], reprs[ix(w[k + 1])]);
    &&& o != Ordering::Greater
    &&& o == Ordering::Equal ==> w[k] < w[k + 1]
}

/// The positions `w` put `reprs` in order under strategy `s`.
pub open spec fn sorted_by(s: Strategy, reprs: Seq<ParsedRepr>, w: Seq<usize>) -> bool {
    forall|k: int| 0 <= k < w.len() - 1 ==> #[trigger] pair_in_order(s, reprs, w, k)
}

fn is_greater(o: Ordering) -> (r: bool)
    ensures
        r == (o == Ordering::Greater),
{
    match o {
        Ordering::Greater => true,
        _ => false,
    }
}

/// While a new item (position `i`) sinks to position `j` of `w`: the
/// other items keep their order, the item's right neighbour is greater, and
/// every other item came earlier.
pub open spec fn sinking(s: Strategy, reprs: Seq<ParsedRepr>, w: Seq<usize>, i: int, j: int) -> bool {
    &&& 0 <= j <= i
    &&& w.len() == i + 1
    &&& w[j] == i
    &&& is_permutation(w, i + 1)
    &&& sorted_by(s, reprs, w.remove(j))
    &&& forall|k: int| 0 <= k < w.len() && k != j ==> #[trigger] w[k] < i
    &&& j < i ==> repr_order(s, reprs[i], reprs[ix(w[j + 1])]) == Ordering::Less
}

proof fn lemma_sink_start(s: Strategy, reprs: Seq<ParsedRepr>, w: Seq<usize>, i: usize)
    requires
        is_permutation(w, ix(i)),
        sorted_by(s, reprs, w),
    ensures
        sinking(s, reprs, w.push(i), ix(i), ix(i)),
{
    reveal(is_permutation);
    let v = w.push(i);
    assert(v.remove(ix(i)) =~= w);
    assert forall|k: int| 0 <= k < v.remove(ix(i)).len() - 1 implies #[trigger] pair_in_order(
        s,
        reprs,
        v.remove(ix(i)),
        k,
    ) by {
        assert(pair_in_order(s, reprs, w, k));
    }
}

proof fn lemma_sink_step(s: Strategy, reprs: Seq<ParsedRepr>, w: Seq<usize>, i: int, j: int)
    requires
        sinking(s, reprs, w, i, j),
        j > 0,
        i < reprs.len(),
        repr_order(s, reprs[ix(w[j - 1])], reprs[ix(w[j])]) == Ordering::Greater,
    ensures
        sinking(s, reprs, w.update(j - 1, w[j]).update(j, w[j - 1]), i, j - 1),
{
    reveal(is_permutation);
    let v = w.update(j - 1, w[j]).update(j, w[j - 1]);
    law_repr_order_antisymmetric(s, reprs[ix(w[j - 1])], reprs[ix(w[j])]);
    assert(v.remove(j - 1) =~= w.remove(j));
    assert forall|x: int, y: int| 0 <= x < y < v.len() implies #[trigger] v[x] != #[trigger] v[y] by {
        let ox = if x == j - 1 {
            j
        } else if x == j {
            j - 1
        } else {
            x
        };
        let oy = if y == j - 1 {
            j
        } else if y == j {
            j - 1
        } else {
            y
        };
        if ox < oy {
            assert(w[ox] != w[oy]);
        } else {
            assert(w[oy] != w[ox]);
        }
    }
    assert forall|k: int| 0 <= k < v.len() && k != j - 1 implies #[trigger] v[k] < i by {
        if k == j {
            assert(w[j - 1] < i);
        }
    }
}

proof fn lemma_sink_done(s: Strategy, reprs: Seq<ParsedRepr>, w: Seq<usize>, i: int, j: int)
    requires
        sinking(s, reprs, w, i, j),
        j == 0 || repr_order(s, reprs[ix(w[j - 1])], reprs[ix(w[j])]) != Ordering::Greater,
    ensures
        is_permutation(w, i + 1),
        sorted_by(s, reprs, w),
{
    let rm = w.remove(j);
    assert forall|k: int| 0 <= k < w.len() - 1 implies #[trigger] pair_in_order(s, reprs, w, k) by {
        if k + 1 < j {
            assert(pair_in_order(s, reprs, rm, k));
            assert(rm[k] == w[k] && rm[k + 1] == w[k + 1]);
        } else if k + 1 == j {
            assert(w[k] < i);
        } else if k == j {
        } else {
            assert(pair_in_order(s, reprs, rm, k - 1));
            assert(rm[k - 1] == w[k] && rm[k] == w[k + 1]);
        }
    }
}

/// The positions of `reprs` in the order of strategy `eco`, by a stable
/// insertion sort.
pub fn sort_indices(reprs: &Vec<ParsedRepr>, eco: Ecosystem) -> (r: Vec<usize>)
    requires
        forall|k: int| 0 <= k < reprs@.len() ==> repr_fits(strategy_of(eco), #[trigger] reprs@[k]),
    ensures
        is_permutation(r@, int_of(reprs@.len())),
        sorted_by(strategy_of(eco), reprs@, r@),
{
    let ghost s = strategy_of(eco);
    let n = reprs.len();
    let mut w: Vec<usize> = Vec::new();
    let mut i: usize = 0;
    proof {
        reveal(is_permutation);
    }
    while i < n
        invariant
            i <= n,
            n == reprs@.len(),
            s == strategy_of(eco),
            forall|k: int| 0 <= k < reprs@.len() ==> repr_fits(s, #[trigger] reprs@[k]),
            is_permutation(w@, ix(i)),
            sorted_by(s, reprs@, w@),
        decreases n - i,
    {
        proof {
            lemma_sink_start(s, reprs@, w@, i);
        }
        w.push(i);
        let mut j: usize = i;
        while j > 0 && is_greater(compare_for_ecosystem(eco, &reprs[w[j - 1]], &reprs[w[j]]))
            invariant
                i < n,
                n == reprs@.len(),
                s == strategy_of(eco),
                forall|k: int| 0 <= k < reprs@.len() ==> repr_fits(s, #[trigger] reprs@[k]),
                sinking(s, reprs@, w@, ix(i), ix(j)),
            decreases j,
        {
            let a = w[j - 1];
            let b = w[j];
            proof {
                lemma_sink_step(s, reprs@, w@, ix(i), ix(j));
            }
            w.set(j - 1, b);
            w.set(j, a);
            j -= 1;
        }
        proof {
            lemma_sink_done(s, reprs@, w@, ix(i), ix(j));
        }
        i += 1;
    }
    w
}

/// What strategy `s` makes of each of `texts` (meaningful where it parses).
pub open spec fn outcome_reprs(s: Strategy, texts: Seq<Seq<char>>) -> Seq<ParsedRepr> {
    Seq::new(texts.len(), |i: int| parse_outcome(s, texts[i])->Ok_0)
}

/// The first item of a list, if any.
pub open spec fn first_of(items: Seq<Operand>) -> Option<Operand> {
    if items.len() > 0 {
        Some(items[0])
    } else {
        None
    }
}

/// Order facts carry over between lists that hold the same values.
proof fn lemma_sorted_transfer(
    s: Strategy,
    a: Seq<ParsedRepr>,
    b: Seq<ParsedRepr>,
    w: Seq<usize>,
)
    requires
        a.len() == b.len(),
        forall|i: int| 0 <= i < a.len() ==> #[trigger] same_repr(a[i], b[i]),
        is_permutation(w, int_of(a.len())),
        sorted_by(s, a, w),
    ensures
        sorted_by(s, b, w),
{
    reveal(is_permutation);
    assert forall|k: int| 0 <= k < w.len() - 1 implies #[trigger] pair_in_order(s, b, w, k) by {
        assert(pair_in_order(s, a, w, k));
        assert(same_repr(a[ix(w[k])], b[ix(w[k])]));
        assert(same_repr(a[ix(w[k + 1])], b[ix(w[k + 1])]));
        lemma_repr_order_same(s, a[ix(w[k])], a[ix(w[k + 1])], b[ix(w[k])], b[ix(w[k + 1])]);
    }
}

proof fn lemma_parsed_all_outcomes(s: Strategy, texts: Seq<Seq<char>>, v: Seq<ParsedRepr>)
    requires
        parsed_all(s, texts, v),
    ensures
        v.len() == outcome_reprs(s, texts).len(),
        forall|i: int| 0 <= i < v.len() ==> #[trigger] same_repr(v[i], outcome_reprs(s, texts)[i]),
        forall|i: int| 0 <= i < v.len() ==> repr_fits(s, #[trigger] v[i]),
{
    assert forall|i: int| 0 <= i < v.len() implies #[trigger] same_repr(
        v[i],
        outcome_reprs(s, texts)[i],
    ) by {
        assert(parse_outcome(s, texts[i]) is Ok);
    }
    assert forall|i: int| 0 <= i < v.len() implies repr_fits(s, #[trigger] v[i]) by {
        assert(parse_outcome(s, texts[i]) is Ok);
    }
}

/// The order that `sort_versions` gives a list: the ecosystem's error or
/// the first parse error, else positions that put the parsed items in
/// order.
pub open spec fn sorted_result(
    items: Seq<Operand>,
    name: Seq<char>,
    r: Result<Vec<usize>, String>,
) -> bool {
    match eco_for_list(name, first_of(items)) {
        Err(m) => r matches Err(e) && e@ == m,
        Ok(eco) => {
            let s = strategy_of(eco);
            let texts = operand_texts(items);
            match first_parse_error(s, texts) {
                Some(m) => r matches Err(e) && e@ == m,
                None => r matches Ok(w) && is_permutation(w@, int_of(items.len())) && sorted_by(
                    s,
                    outcome_reprs(s, texts),
                    w@,
                ),
            }
        },
    }
}

/// The ecosystem of a list and its items parsed for it.
fn eco_and_reprs(items: &Vec<Operand>, ecosystem: &str) -> (r: Result<
    (Ecosystem, Vec<ParsedRepr>),
    String,
>)
    ensures
        match eco_for_list(ecosystem@, first_of(items@)) {
            Err(m) => r matches Err(e) && e@ == m,
            Ok(eco) => match first_parse_error(strategy_of(eco), operand_texts(items@)) {
                Some(m) => r matches Err(e) && e@ == m,
                None => r matches Ok((e, v)) && e == eco && parsed_all(
                    strategy_of(eco),
                    operand_texts(items@),
                    v@,
                ),
            },
        },
{
    let first = if items.len() > 0 {
        Some(items[0])
    } else {
        None
    };
    let eco = match resolve_eco(ecosystem, first) {
        Ok(e) => e,
        Err(m) => {
            return Err(m);
        },
    };
    match parse_all(items, eco) {
        Ok(v) => Ok((eco, v)),
        Err(m) => Err(m),
    }
}

/// Sorts a list of versions under `ecosystem` (for `auto`, that of the
/// first item): the positions of the items in order, equal items in their
/// input order.
pub fn sort_versions(items: &Vec<Operand>, ecosystem: &str) -> (r: Result<Vec<usize>, String>)
    ensures
        sorted_result(items@, ecosystem@, r),
{
    let (eco, reprs) = match eco_and_reprs(items, ecosystem) {
        Ok(p) => p,
        Err(m) => {
            return Err(m);
        },
    };
    let ghost s = strategy_of(eco);
    let ghost texts = operand_texts(items@);
    proof {
        lemma_parsed_all_outcomes(s, texts, reprs@);
    }
    let w = sort_indices(&reprs, eco);
    proof {
        lemma_sorted_transfer(s, reprs@, outcome_reprs(s, texts), w@);
    }
    Ok(w)
}

/// The greatest of a list of versions: the last item once sorted.
pub fn max_version(items: &Vec<Operand>, ecosystem: &str) -> (r: Result<usize, String>)
    ensures
        items@.len() == 0 ==> (r matches Err(e) && e@ == "empty sequence"@),
        items@.len() > 0 ==> match eco_for_list(ecosystem@, first_of(items@)) {
            Err(m) => r matches Err(e) && e@ == m,
            Ok(eco) => {
                let s = strategy_of(eco);
                let texts = operand_texts(items@);
                match first_parse_error(s, texts) {
                    Some(m) => r matches Err(e) && e@ == m,
                    None => r matches Ok(k) && exists|w: Seq<usize>|
                        #![trigger sorted_by(s, outcome_reprs(s, texts), w)]
                        is_permutation(w, int_of(items@.len())) && sorted_by(
                            s,
                            outcome_reprs(s, texts),
                            w,
                        ) && k == w.last(),
                }
            },
        },
{
    if items.len() == 0 {
        return Err("empty sequence".to_owned());
    }
    let sorted = sort_versions(items, ecosystem);
    match sorted {
        Ok(w) => {
            proof {
                reveal(is_permutation);
            }
            let last = w[w.len() - 1];
            Ok(last)
        },
        Err(m) => Err(m),
    }
}

/// The first item that no later item is below: each item replaces the
/// current choice when the choice compares greater than it.
pub open spec fn min_choice(s: Strategy, reprs: Seq<ParsedRepr>, i: int, best: int) -> int
    decreases reprs.len() - i,
{
    if i >= reprs.len() || i < 0 {
        best
    } else if repr_order(s, reprs[best], reprs[i]) == Ordering::Greater {
        min_choice(s, reprs, i + 1, i)
    } else {
        min_choice(s, reprs, i + 1, best)
    }
}

/// The least of a list of versions: the first of those no other is below.
pub fn min_version(items: &Vec<Operand>, ecosystem: &str) -> (r: Result<usize, String>)
    ensures
        items@.len() == 0 ==> (r matches Err(e) && e@ == "empty sequence"@),
        items@.len() > 0 ==> match eco_for_list(ecosystem@, first_of(items@)) {
            Err(m) => r matches Err(e) && e@ == m,
            Ok(eco) => {
                let s = strategy_of(eco);
                let texts = operand_texts(items@);
                match first_parse_error(s, texts) {
                    Some(m) => r matches Err(e) && e@ == m,
                    None => r matches Ok(k) && k == min_choice(s, outcome_reprs(s, texts), 1, 0),
                }
            },
        },
{
    if items.len() == 0 {
        return Err("empty sequence".to_owned());
    }
    let (eco, reprs) = match eco_and_reprs(items, ecosystem) {
        Ok(p) => p,
        Err(m) => {
            return Err(m);
        },
    };
    let ghost s = strategy_of(eco);
    let ghost texts = operand_texts(items@);
    let ghost outs = outcome_reprs(s, texts);
    proof {
        lemma_parsed_all_outcomes(s, texts, reprs@);
    }
    let mut best: usize = 0;
    let mut i: usize = 1;
    while i < reprs.len()
        invariant
            1 <= i <= reprs@.len(),
            best < i,
            reprs@.len() == outs.len(),
            s == strategy_of(eco),
            forall|k: int| 0 <= k < reprs@.len() ==> #[trigger] same_repr(reprs@[k], outs[k]),
            forall|k: int| 0 <= k < reprs@.len() ==> repr_fits(s, #[trigger] reprs@[k]),
            min_choice(s, outs, 1, 0) == min_choice(s, outs, ix(i), ix(best)),
        decreases reprs.len() - i,
    {
        let o = compare_for_ecosystem(eco, &reprs[best], &reprs[i]);
        proof {
            assert(same_repr(reprs@[ix(best)], outs[ix(best)]));
            assert(same_repr(reprs@[ix(i)], outs[ix(i)]));
            lemma_repr_order_same(s, reprs@[ix(best)], reprs@[ix(i)], outs[ix(best)], outs[ix(i)]);
        }
        if is_greater(o) {
            best = i;
        }
        i += 1;
    }
    Ok(best)
}

/// Whether an operand reads as a pre-release.
pub open spec fn operand_prerelease(o: Operand) -> bool {
    match o {
        Operand::Version(v) => v.inner.is_prerelease,
        Operand::Text(t) => has_pre_segment(segments_of(generic_input(t@))),
    }
}

fn is_prerelease_obj(o: Operand) -> (r: bool)
    ensures
        r == operand_prerelease(o),
{
    match o {
        Operand::Version(v) => v.inner.is_prerelease,
        Operand::Text(t) => parse(t).is_prerelease,
    }
}

/// The positions from `i` on of the items that are no pre-releases, after
/// `acc`; the first parse error among them stops the scan.
pub open spec fn stable_from(s: Strategy, items: Seq<Operand>, i: int, acc: Seq<usize>) -> Result<
    Seq<usize>,
    Seq<char>,
>
    decreases items.len() - i,
{
    if i < 0 || i >= items.len() {
        Ok(acc)
    } else if operand_prerelease(items[i]) {
        stable_from(s, items, i + 1, acc)
    } else {
        match parse_outcome(s, operand_text(items[i])) {
            Err(m) => Err(m@),
            Ok(_) => stable_from(s, items, i + 1, acc.push(i as usize)),
        }
    }
}

/// The items at positions `p`.
pub open spec fn pick(items: Seq<Operand>, p: Seq<usize>) -> Seq<Operand> {
    Seq::new(p.len(), |k: int| items[ix(p[k])])
}

/// The stable items (their positions), each parsed for `eco`.
fn stable_reprs(items: &Vec<Operand>, eco: Ecosystem) -> (r: Result<(Vec<usize>, Vec<ParsedRepr>), String>)
    ensures
        match stable_from(strategy_of(eco), items@, 0, seq![]) {
            Err(m) => r matches Err(e) && e@ == m,
            Ok(p) => r matches Ok((q, v)) && q@ == p && parsed_all(
                strategy_of(eco),
                operand_texts(pick(items@, p)),
                v@,
            ),
        },
{
    let ghost s = strategy_of(eco);
    let mut pos: Vec<usize> = Vec::new();
    let mut out: Vec<ParsedRepr> = Vec::new();
    let mut i: usize = 0;
    while i < items.len()
        invariant
            i <= items@.len(),
            s == strategy_of(eco),
            stable_from(s, items@, 0, seq![]) == stable_from(s, items@, ix(i), pos@),
            forall|k: int| 0 <= k < pos@.len() ==> #[trigger] pos@[k] < i,
            parsed_all(s, operand_texts(pick(items@, pos@)), out@),
        decreases items.len() - i,
    {
        if !is_prerelease_obj(items[i]) {
            let res = extract_parsed_for_ecosystem(items[i], eco);
            proof {
                lemma_parse_outcome(s, operand_text(items@[ix(i)]), res);
            }
            match res {
                Ok(p) => {
                    let ghost before_pos = pos@;
                    let ghost before_out = out@;
                    pos.push(i);
                    out.push(p);
                    proof {
                        let t = operand_texts(pick(items@, pos@));
                        let t0 = operand_texts(pick(items@, before_pos));
                        assert forall|k: int| 0 <= k < out@.len() implies parse_outcome(
                            s,
                            #[trigger] t[k],
                        ) is Ok && same_repr(out@[k], parse_outcome(s, t[k])->Ok_0) && repr_fits(
                            s,
                            out@[k],
                        ) by {
                            if k < before_out.len() {
                                assert(t[k] == t0[k]);
                                assert(out@[k] == before_out[k]);
                            } else {
                                assert(t[k] == operand_text(items@[ix(i)]));
                            }
                        }
                    }
                },
                Err(m) => {
                    return Err(m);
                },
            }
        }
        i += 1;
    }
    Ok((pos, out))
}

/// The stable versions of a list (no pre-releases), each checked against
/// the ecosystem: their positions, or the first error.
pub fn stable_versions(items: &Vec<Operand>, ecosystem: &str) -> (r: Result<Vec<usize>, String>)
    ensures
        match eco_for_list(ecosystem@, first_of(items@)) {
            Err(m) => r matches Err(e) && e@ == m,
            Ok(eco) => match stable_from(strategy_of(eco), items@, 0, seq![]) {
                Err(m) => r matches Err(e) && e@ == m,
                Ok(p) => r matches Ok(q) && q@ == p,
            },
        },
{
    let first = if items.len() > 0 {
        Some(items[0])
    } else {
        None
    };
    let eco = match resolve_eco(ecosystem, first) {
        Ok(e) => e,
        Err(m) => {
            return Err(m);
        },
    };
    match stable_reprs(items, eco) {
        Ok((p, _)) => Ok(p),
        Err(m) => Err(m),
    }
}

/// The greatest stable version of a list: the last of the stable items
/// once sorted.
pub fn latest_stable(items: &Vec<Operand>, ecosystem: &str) -> (r: Result<usize, String>)
    ensures
        items@.len() == 0 ==> (r matches Err(e) && e@ == "empty sequence"@),
        items@.len() > 0 ==> match eco_for_list(ecosystem@, first_of(items@)) {
            Err(m) => r matches Err(e) && e@ == m,
            Ok(eco) => {
                let s = strategy_of(eco);
                match stable_from(s, items@, 0, seq![]) {
                    Err(m) => r matches Err(e) && e@ == m,
                    Ok(p) => if p.len() == 0 {
                        r matches Err(e) && e@ == "no stable versions found"@
                    } else {
                        r matches Ok(k) && exists|w: Seq<usize>|
                            #![trigger sorted_by(s, outcome_reprs(s, operand_texts(pick(items@, p))), w)]
                            is_permutation(w, int_of(p.len())) && sorted_by(
                                s,
                                outcome_reprs(s, operand_texts(pick(items@, p))),
                                w,
                            ) && k == p[ix(w.last())]
                    },
                }
            },
        },
{
    if items.len() == 0 {
        return Err("empty sequence".to_owned());
    }
    let first = Some(items[0]);
    let eco = match resolve_eco(ecosystem, first) {
        Ok(e) => e,
        Err(m) => {
            return Err(m);
        },
    };
    let ghost s = strategy_of(eco);
    let (pos, reprs) = match stable_reprs(items, eco) {
        Ok(p) => p,
        Err(m) => {
            return Err(m);
        },
    };
    if pos.len() == 0 {
        return Err("no stable versions found".to_owned());
    }
    let ghost texts = operand_texts(pick(items@, pos@));
    proof {
        lemma_parsed_all_outcomes(s, texts, reprs@);
    }
    let w = sort_indices(&reprs, eco);
    proof {
        lemma_sorted_transfer(s, reprs@, outcome_reprs(s, texts), w@);
        reveal(is_permutation);
    }
    let last = w[w.len() - 1];
    Ok(pos[last])
}

/// The ecosystem that a pair of `batch_compare` is compared in: for `auto`
/// that of the left item, else the named one.
pub open spec fn pair_eco(auto: bool, base: Ecosystem, a: Operand) -> Ecosystem {
    if auto {
        match a {
            Operand::Version(v) => v.eco,
            Operand::Text(t) => autodetect_spec(vstd::utf8::encode_utf8(lower_chars(t@))),
        }
    } else {
        base
    }
}

/// The -1/0/1 results of the pairs from `i` on, after `acc`; the first
/// parse error stops them.
pub open spec fn batch_from(
    pairs: Seq<(Operand, Operand)>,
    auto: bool,
    base: Ecosystem,
    i: int,
    acc: Seq<i32>,
) -> Result<Seq<i32>, Seq<char>>
    decreases pairs.len() - i,
{
    if i < 0 || i >= pairs.len() {
        Ok(acc)
    } else {
        let s = strategy_of(pair_eco(auto, base, pairs[i].0));
        match parse_outcome(s, operand_text(pairs[i].0)) {
            Err(m) => Err(m@),
            Ok(pa) => match parse_outcome(s, operand_text(pairs[i].1)) {
                Err(m) => Err(m@),
                Ok(pb) => batch_from(
                    pairs,
                    auto,
                    base,
                    i + 1,
                    acc.push(ordering_sign(repr_order(s, pa, pb))),
                ),
            },
        }
    }
}

/// Compares many pairs under one ecosystem (for `auto`, each pair under
/// that of its left item): -1, 0 or 1 for each, or the first error.
pub fn batch_compare(pairs: &Vec<(Operand, Operand)>, ecosystem: &str) -> (r: Result<
    Vec<i32>,
    String,
>)
    ensures
        is_auto_name(ecosystem@) ==> match batch_from(
            pairs@,
            true,
            Ecosystem::Generic,
            0,
            seq![],
        ) {
            Err(m) => r matches Err(e) && e@ == m,
            Ok(v) => r matches Ok(q) && q@ == v,
        },
        !is_auto_name(ecosystem@) ==> match ecosystem_by_name(lower_chars(ecosystem@)) {
            None => r matches Err(e) && e@ == unsupported_ecosystem_message(
                lower_chars(ecosystem@),
            ),
            Some(base) => match batch_from(pairs@, false, base, 0, seq![]) {
                Err(m) => r matches Err(e) && e@ == m,
                Ok(v) => r matches Ok(q) && q@ == v,
            },
        },
{
    let auto = is_auto(ecosystem);
    let base = if auto {
        Ecosystem::Generic
    } else {
        match Ecosystem::from_str(ecosystem) {
            Ok(e) => e,
            Err(m) => {
                return Err(m);
            },
        }
    };
    let mut out: Vec<i32> = Vec::new();
    let mut i: usize = 0;
    while i < pairs.len()
        invariant
            i <= pairs@.len(),
            auto == is_auto_name(ecosystem@),
            auto ==> base == Ecosystem::Generic,
            !auto ==> ecosystem_by_name(lower_chars(ecosystem@)) == Some(base),
            batch_from(pairs@, auto, base, 0, seq![]) == batch_from(pairs@, auto, base, ix(i), out@),
        decreases pairs.len() - i,
    {
        let (a, b) = pairs[i];
        assert(pairs@[ix(i)] == (a, b));
        let eco = if auto {
            match a {
                Operand::Version(v) => v.eco,
                Operand::Text(t) => autodetect_ecosystem(t),
            }
        } else {
            base
        };
        let ghost s = strategy_of(eco);
        let ra = extract_parsed_for_ecosystem(a, eco);
        proof {
            lemma_parse_outcome(s, operand_text(a), ra);
        }
        let pa = match ra {
            Ok(p) => p,
            Err(m) => {
                return Err(m);
            },
        };
        let rb = extract_parsed_for_ecosystem(b, eco);
        proof {
            lemma_parse_outcome(s, operand_text(b), rb);
        }
        let pb = match rb {
            Ok(p) => p,
            Err(m) => {
                return Err(m);
            },
        };
        proof {
            lemma_repr_order_same(
                s,
                pa,
                pb,
                parse_outcome(s, operand_text(a))->Ok_0,
                parse_outcome(s, operand_text(b))->Ok_0,
            );
        }
        out.push(sign_of(compare_for_ecosystem(eco, &pa, &pb)));
        i += 1;
    }
    Ok(out)
}

} // verus!
