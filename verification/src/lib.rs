//! Cross-ecosystem software version parsing and comparison.
//!
//! The crate root offers a small facade: pick an ecosystem by name or by
//! auto-detection, parse versions for it, and compare them.
use std::cmp::Ordering;
use vstd::prelude::*;

pub mod api;
pub mod laws;
pub mod lists;
pub mod order;
pub mod parser;
pub mod strategies;
pub mod text;
pub mod version;

use parser::{autodetect_ecosystem, autodetect_spec, ecosystem_by_name, parsed_from, Ecosystem};
use strategies::{
    compare_for_ecosystem, parse_agrees, parse_for_ecosystem, repr_fits, repr_order, strategy_of,
    ParsedRepr,
};
use text::lower_chars;

verus! {

/// An ecosystem chosen by name or detected from a version.
#[derive(Clone, Copy)]
pub struct EcoHandle(pub Ecosystem);

/// A version parsed for some ecosystem.
#[derive(Clone)]
pub struct Parsed(pub ParsedRepr);

/// The ecosystem named by `s` (case-insensitively), or the message that
/// lists the accepted names.
pub fn eco_from_str(s: &str) -> (r: Result<EcoHandle, String>)
    ensures
        match ecosystem_by_name(lower_chars(s@)) {
            Some(e) => r matches Ok(h) && h.0 == e,
            None => r matches Err(m) && m@ == parser::unsupported_ecosystem_message(
                lower_chars(s@),
            ),
        },
{
    match Ecosystem::from_str(s) {
        Ok(e) => Ok(EcoHandle(e)),
        Err(m) => Err(m),
    }
}

/// The ecosystem that `input` looks like it comes from.
pub fn autodetect(input: &str) -> (r: EcoHandle)
    ensures
        r.0 == autodetect_spec(vstd::utf8::encode_utf8(lower_chars(input@))),
{
    EcoHandle(autodetect_ecosystem(input))
}

/// `input` read by the generic parser.
pub fn parse_generic(input: &str) -> (r: Parsed)
    ensures
        r.0 matches ParsedRepr::Generic(p) && parsed_from(p, input@),
{
    Parsed(ParsedRepr::Generic(parser::parse_generic(input)))
}

/// `input` parsed for the ecosystem `eco`, or the message saying why it is
/// no version of it.
pub fn parse_for(eco: EcoHandle, input: &str) -> (r: Result<Parsed, String>)
    ensures
        parse_agrees(
            strategy_of(eco.0),
            input@,
            match r {
                Ok(p) => Ok(p.0),
                Err(e) => Err(e),
            },
        ),
        r matches Ok(p) ==> repr_fits(strategy_of(eco.0), p.0),
{
    match parse_for_ecosystem(eco.0, input) {
        Ok(p) => Ok(Parsed(p)),
        Err(e) => Err(e),
    }
}

/// -1, 0 or 1 as `o` is less, equal or greater.
pub open spec fn ordering_sign(o: Ordering) -> i32 {
    match o {
        Ordering::Less => -1i32,
        Ordering::Equal => 0i32,
        Ordering::Greater => 1i32,
    }
}

/// Compares two versions parsed for `eco`: -1, 0 or 1.
pub fn compare(eco: EcoHandle, a: &Parsed, b: &Parsed) -> (r: i32)
    requires
        repr_fits(strategy_of(eco.0), a.0),
        repr_fits(strategy_of(eco.0), b.0),
    ensures
        r == ordering_sign(repr_order(strategy_of(eco.0), a.0, b.0)),
{
    match compare_for_ecosystem(eco.0, &a.0, &b.0) {
        Ordering::Less => -1,
        Ordering::Equal => 0,
        Ordering::Greater => 1,
    }
}

} // verus!
