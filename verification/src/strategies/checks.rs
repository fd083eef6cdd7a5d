//! The checks that ecosystems read by the generic parser make before
//! parsing: Ruby gems, Maven, NuGet, Composer, CalVer, Alpine and Docker.
use vstd::prelude::*;
use vstd::string::StringExecFns;
use vstd::string::StringSliceAdditionalSpecFns;
use vstd::utf8::*;

use crate::parser::{strip_v, strip_v_bytes};
use crate::strategies::semver::{agrees_unit, with_quoted};
use crate::text::{byte_is_digit, is_digit, lemma_encode_empty, trim, trimmed_bytes};

verus! {

broadcast use vstd::utf8::group_utf8_lib;

/// The check of a version of the ecosystem called `kind`: `t` (the text
/// that is read) must not be empty and must start with a digit; the message
/// quotes the whole `input`.
pub open spec fn digit_start_check(t: Seq<u8>, input: Seq<char>, kind: Seq<char>) -> Result<
    (),
    Seq<char>,
> {
    if t.len() == 0 {
        Err("empty "@ + kind + " version"@)
    } else if !is_digit(t[0]) {
        Err(kind + " version must start with a digit: "@ + "'"@ + input + "'"@)
    } else {
        Ok(())
    }
}

/// The shared check behind the ecosystem validators.
fn check_digit_start(t: &str, input: &str, kind: &str) -> (r: Result<(), String>)
    ensures
        agrees_unit(r, digit_start_check(t.spec_bytes(), input@, kind@)),
{
    let b = t.as_bytes();
    if b.len() == 0 {
        let mut m = "empty ".to_owned();
        m.append(kind);
        m.append(" version");
        return Err(m);
    }
    if !byte_is_digit(b[0]) {
        let mut m = kind.to_owned();
        m.append(" version must start with a digit: ");
        return Err(with_quoted(m.as_str(), input));
    }
    Ok(())
}

/// A Ruby gem version: trimmed, non-empty, starting with a digit.
pub fn validate_ruby(input: &str) -> (r: Result<(), String>)
    ensures
        agrees_unit(r, digit_start_check(trimmed_bytes(input@), input@, "Ruby gem"@)),
{
    check_digit_start(trim(input), input, "Ruby gem")
}

/// A Maven version: trimmed, non-empty, starting with a digit.
pub fn validate_maven(input: &str) -> (r: Result<(), String>)
    ensures
        agrees_unit(r, digit_start_check(trimmed_bytes(input@), input@, "Maven"@)),
{
    check_digit_start(trim(input), input, "Maven")
}

/// A NuGet version: trimmed, non-empty, starting with a digit.
pub fn validate_nuget(input: &str) -> (r: Result<(), String>)
    ensures
        agrees_unit(r, digit_start_check(trimmed_bytes(input@), input@, "NuGet"@)),
{
    check_digit_start(trim(input), input, "NuGet")
}

/// A Composer version: trimmed and without a `v` prefix, non-empty,
/// starting with a digit.
pub fn validate_composer(input: &str) -> (r: Result<(), String>)
    ensures
        agrees_unit(
            r,
            digit_start_check(strip_v_bytes(trimmed_bytes(input@)), input@, "Composer"@),
        ),
{
    check_digit_start(strip_v(trim(input)), input, "Composer")
}

/// A CalVer version: trimmed, non-empty, starting with a digit.
pub fn validate_calver(input: &str) -> (r: Result<(), String>)
    ensures
        agrees_unit(r, digit_start_check(trimmed_bytes(input@), input@, "CalVer"@)),
{
    check_digit_start(trim(input), input, "CalVer")
}

/// An Alpine version: trimmed, non-empty, starting with a digit.
pub fn validate_alpine(input: &str) -> (r: Result<(), String>)
    ensures
        agrees_unit(r, digit_start_check(trimmed_bytes(input@), input@, "Alpine"@)),
{
    check_digit_start(trim(input), input, "Alpine")
}

/// The check of a Docker tag: any text but the empty one.
pub open spec fn docker_check(input: Seq<char>) -> Result<(), Seq<char>> {
    if input.len() == 0 {
        Err("empty Docker version"@)
    } else {
        Ok(())
    }
}

/// A Docker tag: any text but the empty one.
pub fn validate_docker(input: &str) -> (r: Result<(), String>)
    ensures
        agrees_unit(r, docker_check(input@)),
{
    if input.as_bytes().len() == 0 {
        proof {
            lemma_encode_empty(input@);
        }
        return Err("empty Docker version".to_owned());
    }
    proof {
        lemma_encode_empty(input@);
    }
    Ok(())
}

} // verus!
