//! Per-ecosystem parsing and comparison strategies.
use std::cmp::Ordering;
use vstd::prelude::*;
use vstd::string::StringSliceAdditionalSpecFns;
use vstd::utf8::*;

pub mod checks;
pub mod debian;
pub mod generic;
pub mod pep440;
pub mod rpm;
pub mod semver;

pub use generic::{cmp_parsed, cmp_segments, cmp_two, normalized, text_effective_weight};

use crate::parser::{parse_generic, parsed_from, segs_view, Ecosystem, ParsedVersion};
use crate::text::trimmed_bytes;
use checks::{
    digit_start_check, docker_check, validate_alpine, validate_calver, validate_composer,
    validate_docker, validate_maven, validate_nuget, validate_ruby,
};
use debian::{cmp_debian, debian_order, epoch_and_dash_parts, parse_debian, DebianVersion};
use generic::parsed_order;
use pep440::{cmp_pep440, pep440_check, pep440_order, validate_pep440};
use rpm::{cmp_rpm, parse_rpm, rpm_version_order, RpmVersion};
use semver::{
    cmp_semver_strict, parse_semver_strict, pre_view, semver_matches, semver_order,
    semver_parse_spec, SemVer,
};

verus! {

broadcast use vstd::utf8::group_utf8_lib;

/// A version as one of the strategies parsed it.
#[derive(Debug, Clone)]
pub enum ParsedRepr {
    Generic(ParsedVersion),
    Semver(SemVer),
    Debian(DebianVersion),
    Rpm(RpmVersion),
}

/// The ways of parsing and comparing versions; each ecosystem uses one.
#[derive(Debug, Clone, Copy, PartialEq, Eq, Structural)]
pub enum Strategy {
    Generic,
    Semver,
    Pep440,
    Debian,
    Rpm,
    Ruby,
    Maven,
    Go,
    Nuget,
    Composer,
    Calver,
    Alpine,
    Docker,
}

/// The strategy of an ecosystem.
pub open spec fn strategy_of(e: Ecosystem) -> Strategy {
    match e {
        Ecosystem::Generic => Strategy::Generic,
        Ecosystem::Docker => Strategy::Docker,
        Ecosystem::Semver | Ecosystem::Npm | Ecosystem::Crates | Ecosystem::Hex
        | Ecosystem::Swift => Strategy::Semver,
        Ecosystem::Pep440 => Strategy::Pep440,
        Ecosystem::Debian => Strategy::Debian,
        Ecosystem::Rpm => Strategy::Rpm,
        Ecosystem::Ruby => Strategy::Ruby,
        Ecosystem::Maven => Strategy::Maven,
        Ecosystem::Go => Strategy::Go,
        Ecosystem::Nuget => Strategy::Nuget,
        Ecosystem::Composer => Strategy::Composer,
        Ecosystem::Calver => Strategy::Calver,
        Ecosystem::Alpine => Strategy::Alpine,
    }
}

/// The parsed form that a strategy makes and compares.
pub open spec fn repr_fits(s: Strategy, p: ParsedRepr) -> bool {
    match s {
        Strategy::Semver | Strategy::Go => p is Semver,
        Strategy::Debian => p is Debian,
        Strategy::Rpm => p is Rpm,
        _ => p is Generic,
    }
}

/// A check before the generic parser: its message, or the parsed input.
pub open spec fn checked_generic(
    c: Result<(), Seq<char>>,
    input: Seq<char>,
    r: Result<ParsedRepr, String>,
) -> bool {
    match c {
        Ok(_) => r matches Ok(ParsedRepr::Generic(p)) && parsed_from(p, input),
        Err(m) => r matches Err(e) && e@ == m,
    }
}

/// A Debian parse: an error for empty input, else epoch, upstream and
/// revision.
pub open spec fn debian_result(input: Seq<char>, r: Result<ParsedRepr, String>) -> bool {
    if trimmed_bytes(input).len() == 0 {
        r matches Err(m) && m@ == "empty Debian version"@
    } else {
        r matches Ok(ParsedRepr::Debian(v)) && (
        v.epoch,
        encode_utf8(v.upstream@),
        encode_utf8(v.revision@),
        ) == epoch_and_dash_parts(input)
    }
}

/// An RPM parse: an error for empty input, else epoch, version and release.
pub open spec fn rpm_result(input: Seq<char>, r: Result<ParsedRepr, String>) -> bool {
    if trimmed_bytes(input).len() == 0 {
        r matches Err(m) && m@ == "empty RPM version"@
    } else {
        r matches Ok(ParsedRepr::Rpm(v)) && (
        v.epoch,
        encode_utf8(v.version@),
        encode_utf8(v.release@),
        ) == epoch_and_dash_parts(input)
    }
}

/// What strategy `s` makes of `input`.
#[verifier::opaque]
pub open spec fn parse_agrees(s: Strategy, input: Seq<char>, r: Result<ParsedRepr, String>) -> bool {
    match s {
        Strategy::Generic => r matches Ok(ParsedRepr::Generic(p)) && parsed_from(p, input),
        Strategy::Semver | Strategy::Go => match semver_parse_spec(input) {
            Ok(w) => r matches Ok(ParsedRepr::Semver(v)) && semver_matches(v, w),
            Err(m) => r matches Err(e) && e@ == m,
        },
        Strategy::Pep440 => checked_generic(pep440_check(input), input, r),
        Strategy::Debian => debian_result(input, r),
        Strategy::Rpm => rpm_result(input, r),
        Strategy::Ruby => checked_generic(
            digit_start_check(trimmed_bytes(input), input, "Ruby gem"@),
            input,
            r,
        ),
        Strategy::Maven => checked_generic(
            digit_start_check(trimmed_bytes(input), input, "Maven"@),
            input,
            r,
        ),
        Strategy::Nuget => checked_generic(
            digit_start_check(trimmed_bytes(input), input, "NuGet"@),
            input,
            r,
        ),
        Strategy::Composer => checked_generic(
            digit_start_check(
                crate::parser::strip_v_bytes(trimmed_bytes(input)),
                input,
                "Composer"@,
            ),
            input,
            r,
        ),
        Strategy::Calver => checked_generic(
            digit_start_check(trimmed_bytes(input), input, "CalVer"@),
            input,
            r,
        ),
        Strategy::Alpine => checked_generic(
            digit_start_check(trimmed_bytes(input), input, "Alpine"@),
            input,
            r,
        ),
        Strategy::Docker => checked_generic(docker_check(input), input, r),
    }
}

/// The order strategy `s` gives two parsed versions of its kind.
#[verifier::opaque]
pub open spec fn repr_order(s: Strategy, a: ParsedRepr, b: ParsedRepr) -> Ordering {
    match (a, b) {
        (ParsedRepr::Generic(x), ParsedRepr::Generic(y)) => if s == Strategy::Pep440 {
            pep440_order(x, y)
        } else {
            parsed_order(x, y)
        },
        (ParsedRepr::Semver(x), ParsedRepr::Semver(y)) => semver_order(x, y),
        (ParsedRepr::Debian(x), ParsedRepr::Debian(y)) => debian_order(x, y),
        (ParsedRepr::Rpm(x), ParsedRepr::Rpm(y)) => rpm_version_order(x, y),
        _ => Ordering::Equal,
    }
}

/// Two parsed versions that hold the same values.
pub open spec fn same_repr(p: ParsedRepr, q: ParsedRepr) -> bool {
    match (p, q) {
        (ParsedRepr::Generic(x), ParsedRepr::Generic(y)) => {
            &&& x.epoch == y.epoch
            &&& segs_view(x.segments@) == segs_view(y.segments@)
            &&& x.build@ == y.build@
        },
        (ParsedRepr::Semver(x), ParsedRepr::Semver(y)) => {
            &&& x.major == y.major
            &&& x.minor == y.minor
            &&& x.patch == y.patch
            &&& pre_view(x.pre) == pre_view(y.pre)
        },
        (ParsedRepr::Debian(x), ParsedRepr::Debian(y)) => {
            &&& x.epoch == y.epoch
            &&& x.upstream@ == y.upstream@
            &&& x.revision@ == y.revision@
        },
        (ParsedRepr::Rpm(x), ParsedRepr::Rpm(y)) => {
            &&& x.epoch == y.epoch
            &&& x.version@ == y.version@
            &&& x.release@ == y.release@
        },
        _ => false,
    }
}

/// Two parse results that say the same: the same values, or the same
/// message.
pub open spec fn same_result(a: Result<ParsedRepr, String>, b: Result<ParsedRepr, String>) -> bool {
    match (a, b) {
        (Ok(p), Ok(q)) => same_repr(p, q),
        (Err(m), Err(n)) => m@ == n@,
        _ => false,
    }
}

/// A parse result of `input` under strategy `s`.
pub open spec fn parse_outcome(s: Strategy, input: Seq<char>) -> Result<ParsedRepr, String> {
    choose|r: Result<ParsedRepr, String>| parse_agrees(s, input, r)
}

/// A strategy's parse of an input says one thing: any two results it may
/// give hold the same values or the same message.
pub proof fn lemma_parse_unique(
    s: Strategy,
    input: Seq<char>,
    a: Result<ParsedRepr, String>,
    b: Result<ParsedRepr, String>,
)
    requires
        parse_agrees(s, input, a),
        parse_agrees(s, input, b),
    ensures
        same_result(a, b),
{
    reveal(parse_agrees);
    match (a, b) {
        (Ok(ParsedRepr::Generic(x)), Ok(ParsedRepr::Generic(y))) => {
            encode_utf8_decode_utf8(x.build@);
            encode_utf8_decode_utf8(y.build@);
        },
        (Ok(ParsedRepr::Debian(x)), Ok(ParsedRepr::Debian(y))) => {
            encode_utf8_decode_utf8(x.upstream@);
            encode_utf8_decode_utf8(y.upstream@);
            encode_utf8_decode_utf8(x.revision@);
            encode_utf8_decode_utf8(y.revision@);
        },
        (Ok(ParsedRepr::Rpm(x)), Ok(ParsedRepr::Rpm(y))) => {
            encode_utf8_decode_utf8(x.version@);
            encode_utf8_decode_utf8(y.version@);
            encode_utf8_decode_utf8(x.release@);
            encode_utf8_decode_utf8(y.release@);
        },
        _ => {},
    }
}

/// A parse result of the outcome kind: what `r` says is what any parse of
/// `input` says.
pub proof fn lemma_parse_outcome(s: Strategy, input: Seq<char>, r: Result<ParsedRepr, String>)
    requires
        parse_agrees(s, input, r),
    ensures
        parse_agrees(s, input, parse_outcome(s, input)),
        same_result(r, parse_outcome(s, input)),
{
    lemma_parse_unique(s, input, r, parse_outcome(s, input));
}

/// What a strategy parses is of the kind it compares.
pub proof fn lemma_parse_fits(s: Strategy, input: Seq<char>, p: ParsedRepr)
    requires
        parse_agrees(s, input, Ok(p)),
    ensures
        repr_fits(s, p),
{
    reveal(parse_agrees);
}

/// The order of parsed versions depends on their values only.
pub proof fn lemma_repr_order_same(
    s: Strategy,
    a: ParsedRepr,
    b: ParsedRepr,
    c: ParsedRepr,
    d: ParsedRepr,
)
    requires
        same_repr(a, c),
        same_repr(b, d),
    ensures
        repr_order(s, a, b) == repr_order(s, c, d),
{
    reveal(repr_order);
}

/// A generic parse after a check passed.
fn generic_after(c: Result<(), String>, input: &str) -> (r: Result<ParsedRepr, String>)
    ensures
        match c {
            Ok(_) => r matches Ok(ParsedRepr::Generic(p)) && parsed_from(p, input@),
            Err(e) => r == Err::<ParsedRepr, String>(e),
        },
{
    match c {
        Ok(_) => Ok(ParsedRepr::Generic(parse_generic(input))),
        Err(e) => Err(e),
    }
}

impl Strategy {
    /// Parses `input` the way this strategy reads versions.
    pub fn parse(self, input: &str) -> (r: Result<ParsedRepr, String>)
        ensures
            parse_agrees(self, input@, r),
            r matches Ok(p) ==> repr_fits(self, p),
    {
        proof {
            reveal(parse_agrees);
        }
        match self {
            Strategy::Generic => Ok(ParsedRepr::Generic(parse_generic(input))),
            Strategy::Semver | Strategy::Go => match parse_semver_strict(input) {
                Ok(v) => Ok(ParsedRepr::Semver(v)),
                Err(e) => Err(e),
            },
            Strategy::Pep440 => generic_after(validate_pep440(input), input),
            Strategy::Debian => match parse_debian(input) {
                Ok(v) => Ok(ParsedRepr::Debian(v)),
                Err(e) => Err(e),
            },
            Strategy::Rpm => match parse_rpm(input) {
                Ok(v) => Ok(ParsedRepr::Rpm(v)),
                Err(e) => Err(e),
            },
            Strategy::Ruby => generic_after(validate_ruby(input), input),
            Strategy::Maven => generic_after(validate_maven(input), input),
            Strategy::Nuget => generic_after(validate_nuget(input), input),
            Strategy::Composer => generic_after(validate_composer(input), input),
            Strategy::Calver => generic_after(validate_calver(input), input),
            Strategy::Alpine => generic_after(validate_alpine(input), input),
            Strategy::Docker => generic_after(validate_docker(input), input),
        }
    }

    /// Compares two versions that this strategy parsed.
    pub fn compare(self, left: &ParsedRepr, right: &ParsedRepr) -> (r: Ordering)
        requires
            repr_fits(self, *left),
            repr_fits(self, *right),
        ensures
            r == repr_order(self, *left, *right),
    {
        proof {
            reveal(repr_order);
        }
        match (left, right) {
            (ParsedRepr::Generic(a), ParsedRepr::Generic(b)) => {
                if self == Strategy::Pep440 {
                    cmp_pep440(a, b)
                } else {
                    cmp_parsed(a, b)
                }
            },
            (ParsedRepr::Semver(a), ParsedRepr::Semver(b)) => cmp_semver_strict(a, b),
            (ParsedRepr::Debian(a), ParsedRepr::Debian(b)) => cmp_debian(a, b),
            (ParsedRepr::Rpm(a), ParsedRepr::Rpm(b)) => cmp_rpm(a, b),
            _ => Ordering::Equal,
        }
    }
}

/// The strategy of an ecosystem.
pub fn strategy_for(ecosystem: Ecosystem) -> (r: Strategy)
    ensures
        r == strategy_of(ecosystem),
{
    match ecosystem {
        Ecosystem::Generic => Strategy::Generic,
        Ecosystem::Docker => Strategy::Docker,
        Ecosystem::Semver | Ecosystem::Npm | Ecosystem::Crates | Ecosystem::Hex
        | Ecosystem::Swift => Strategy::Semver,
        Ecosystem::Pep440 => Strategy::Pep440,
        Ecosystem::Debian => Strategy::Debian,
        Ecosystem::Rpm => Strategy::Rpm,
        Ecosystem::Ruby => Strategy::Ruby,
        Ecosystem::Maven => Strategy::Maven,
        Ecosystem::Go => Strategy::Go,
        Ecosystem::Nuget => Strategy::Nuget,
        Ecosystem::Composer => Strategy::Composer,
        Ecosystem::Calver => Strategy::Calver,
        Ecosystem::Alpine => Strategy::Alpine,
    }
}

/// Parses `input` as a version of `ecosystem`.
pub fn parse_for_ecosystem(ecosystem: Ecosystem, input: &str) -> (r: Result<ParsedRepr, String>)
    ensures
        parse_agrees(strategy_of(ecosystem), input@, r),
        r matches Ok(p) ==> repr_fits(strategy_of(ecosystem), p),
{
    strategy_for(ecosystem).parse(input)
}

/// Compares two versions that were parsed for `ecosystem`.
pub fn compare_for_ecosystem(ecosystem: Ecosystem, a: &ParsedRepr, b: &ParsedRepr) -> (r: Ordering)
    requires
        repr_fits(strategy_of(ecosystem), *a),
        repr_fits(strategy_of(ecosystem), *b),
    ensures
        r == repr_order(strategy_of(ecosystem), *a, *b),
{
    strategy_for(ecosystem).compare(a, b)
}

} // verus!
