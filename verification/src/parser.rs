//! The generic version parser: tag weights, ecosystem names, ecosystem
//! auto-detection and the segment tokenizer.
use vstd::prelude::*;
use vstd::string::StringExecFns;
use vstd::string::StringSliceAdditionalSpecFns;
use vstd::utf8::*;

use crate::text::{
    all_alpha, all_ascii, all_digits, all_digits_from, alpha_run, alpha_run_end, ascii_chars,
    ascii_string, byte_is_alpha, byte_is_digit, bytes_equal, contains_byte, contains_bytes,
    contains_sub, decimal, digit_run, digit_run_end, ends_with, ends_with_bytes, find_byte,
    find_sub, first_pos, first_sub_pos, has_byte, is_alpha, is_digit, last_sub_pos, lemma_alpha_run,
    lemma_cut_around_ascii, lemma_digit_run, lemma_first_pos, lemma_first_sub_pos, lemma_skip_first,
    lemma_str_valid, lower_bytes, lower_chars, lowercase_bytes, matches_at, parse_u64, rfind_sub,
    saturated_decimal, saturated_decimal_of, starts_with, starts_with_bytes, str_eq, substr_from,
    to_ascii_lowercase, trim, trimmed_bytes, BANG, CARET, COLON, DASH, DOT, LOWER_A, LOWER_B,
    LOWER_C, LOWER_R, LOWER_V, PLUS, TILDE, UNDERSCORE, UPPER_V,
};

verus! {

broadcast use vstd::utf8::group_utf8_lib;

/// One segment of a version: a number or a (lower-case) word.
#[derive(Debug, Clone, PartialEq, Eq)]
pub enum Seg {
    Num(u64),
    Text(String),
}

/// The mathematical value of a [`Seg`].
pub enum SegV {
    Num(u64),
    Text(Seq<char>),
}

impl View for Seg {
    type V = SegV;

    open spec fn view(&self) -> SegV {
        match self {
            Seg::Num(n) => SegV::Num(*n),
            Seg::Text(s) => SegV::Text(s@),
        }
    }
}

pub open spec fn segs_view(v: Seq<Seg>) -> Seq<SegV> {
    Seq::new(v.len(), |i: int| v[i]@)
}

/// A copy of a segment.
pub fn copy_seg(s: &Seg) -> (r: Seg)
    ensures
        r@ == s@,
{
    match s {
        Seg::Num(n) => Seg::Num(*n),
        Seg::Text(t) => Seg::Text(t.clone()),
    }
}

// ---------------------------------------------------------------------------
// Tag weights
// ---------------------------------------------------------------------------

/// The weight of a known qualifier word; a release is weight 30.
pub open spec fn tag_weight_spec(s: Seq<char>) -> Option<i32> {
    if s == "~"@ {
        Some(-10i32)
    } else if s == "dev"@ {
        Some(-5i32)
    } else if s == "alpha"@ || s == "a"@ {
        Some(0i32)
    } else if s == "beta"@ || s == "b"@ {
        Some(10i32)
    } else if s == "milestone"@ || s == "m"@ {
        Some(15i32)
    } else if s == "rc"@ || s == "cr"@ || s == "c"@ || s == "preview"@ || s == "pre"@ {
        Some(20i32)
    } else if s == "snapshot"@ {
        Some(25i32)
    } else if s == "final"@ || s == "ga"@ || s == "release"@ || s == "r"@ || s == "rev"@ {
        Some(30i32)
    } else if s == "^"@ {
        Some(32i32)
    } else if s == "post"@ || s == "sp"@ || s == "patch"@ || s == "p"@ {
        Some(35i32)
    } else {
        None
    }
}

/// The weight a word takes part in comparisons with: unknown words weigh 29,
/// just below a release.
pub open spec fn effective_weight(s: Seq<char>) -> i32 {
    match tag_weight_spec(s) {
        Some(w) => w,
        None => 29,
    }
}

pub open spec fn is_prerelease_tag_spec(s: Seq<char>) -> bool {
    tag_weight_spec(s) matches Some(w) && w < 30
}

pub open spec fn is_postrelease_tag_spec(s: Seq<char>) -> bool {
    tag_weight_spec(s) matches Some(w) && w > 30
}

/// A word that means the release itself (`final`, `ga`, `release`, and
/// PEP 440's `r` and `rev`).
pub open spec fn is_release_alias_spec(s: Seq<char>) -> bool {
    tag_weight_spec(s) == Some(30i32)
}

/// `~` and `^` weigh as a pre- and a post-release marker.
pub proof fn lemma_marker_weights()
    ensures
        tag_weight_spec("~"@) == Some(-10i32),
        tag_weight_spec("^"@) == Some(32i32),
{
    reveal_strlit("~");
    reveal_strlit("^");
    reveal_strlit("dev");
    reveal_strlit("alpha");
    reveal_strlit("a");
    reveal_strlit("beta");
    reveal_strlit("b");
    reveal_strlit("milestone");
    reveal_strlit("m");
    reveal_strlit("rc");
    reveal_strlit("cr");
    reveal_strlit("c");
    reveal_strlit("preview");
    reveal_strlit("pre");
    reveal_strlit("snapshot");
    reveal_strlit("final");
    reveal_strlit("ga");
    reveal_strlit("release");
    reveal_strlit("r");
    reveal_strlit("rev");
    assert("^"@[0] != "~"@[0]);
    assert("^"@[0] != "r"@[0]);
    assert("^"@[0] != "a"@[0]);
    assert("^"@[0] != "b"@[0]);
    assert("^"@[0] != "m"@[0]);
    assert("^"@[0] != "c"@[0]);
    assert("^"@ != "dev"@ && "^"@ != "rc"@ && "^"@ != "cr"@ && "^"@ != "ga"@);
}

/// The weights of `alpha` and `post`.
pub proof fn lemma_alpha_post_weights()
    ensures
        tag_weight_spec("alpha"@) == Some(0i32),
        tag_weight_spec("post"@) == Some(35i32),
{
    reveal_strlit("~");
    reveal_strlit("^");
    reveal_strlit("dev");
    reveal_strlit("alpha");
    reveal_strlit("a");
    reveal_strlit("beta");
    reveal_strlit("b");
    reveal_strlit("milestone");
    reveal_strlit("m");
    reveal_strlit("rc");
    reveal_strlit("cr");
    reveal_strlit("c");
    reveal_strlit("preview");
    reveal_strlit("pre");
    reveal_strlit("snapshot");
    reveal_strlit("final");
    reveal_strlit("ga");
    reveal_strlit("release");
    reveal_strlit("post");
    reveal_strlit("r");
    reveal_strlit("rev");
    assert("alpha"@.len() == 5 && "post"@.len() == 4);
    assert("alpha"@ != "~"@ && "alpha"@ != "dev"@);
    assert("post"@[0] != "beta"@[0]);
    assert("post"@ != "~"@ && "post"@ != "dev"@ && "post"@ != "alpha"@ && "post"@ != "a"@);
    assert("post"@ != "beta"@ && "post"@ != "b"@ && "post"@ != "milestone"@ && "post"@ != "m"@);
    assert("post"@ != "rc"@ && "post"@ != "cr"@ && "post"@ != "c"@ && "post"@ != "preview"@);
    assert("post"@ != "pre"@ && "post"@ != "snapshot"@ && "post"@ != "final"@);
    assert("post"@ != "ga"@ && "post"@ != "release"@ && "post"@ != "^"@);
    assert("post"@ != "r"@ && "post"@ != "rev"@);
}

/// The weights of the post-release words `post`, `sp`, `patch` and `p`.
pub proof fn lemma_post_word_weights()
    ensures
        tag_weight_spec("post"@) == Some(35i32),
        tag_weight_spec("sp"@) == Some(35i32),
        tag_weight_spec("patch"@) == Some(35i32),
        tag_weight_spec("p"@) == Some(35i32),
{
    reveal_strlit("~");
    reveal_strlit("^");
    reveal_strlit("dev");
    reveal_strlit("alpha");
    reveal_strlit("a");
    reveal_strlit("beta");
    reveal_strlit("b");
    reveal_strlit("milestone");
    reveal_strlit("m");
    reveal_strlit("rc");
    reveal_strlit("cr");
    reveal_strlit("c");
    reveal_strlit("preview");
    reveal_strlit("pre");
    reveal_strlit("snapshot");
    reveal_strlit("final");
    reveal_strlit("ga");
    reveal_strlit("release");
    reveal_strlit("r");
    reveal_strlit("rev");
    reveal_strlit("post");
    reveal_strlit("sp");
    reveal_strlit("patch");
    reveal_strlit("p");
    lemma_alpha_post_weights();
    assert("p"@[0] != "~"@[0] && "p"@[0] != "a"@[0] && "p"@[0] != "b"@[0]);
    assert("p"@[0] != "m"@[0] && "p"@[0] != "c"@[0] && "p"@[0] != "r"@[0]);
    assert("p"@[0] != "^"@[0]);
    assert("sp"@[0] != "rc"@[0] && "sp"@[0] != "cr"@[0] && "sp"@[0] != "ga"@[0]);
    assert("snapshot"@.len() == 8 && "preview"@.len() == 7 && "milestone"@.len() == 9);
    assert("release"@.len() == 7 && "patch"@.len() == 5 && "sp"@.len() == 2);
    assert("p"@.len() == 1 && "pre"@.len() == 3 && "rev"@.len() == 3 && "dev"@.len() == 3);
    assert("p"@ != "a"@ && "p"@ != "b"@ && "p"@ != "m"@ && "p"@ != "c"@ && "p"@ != "r"@);
    assert("p"@ != "~"@ && "p"@ != "^"@ && "p"@ != "sp"@ && "p"@ != "pre"@);
    assert("patch"@[1] != "alpha"@[1] && "patch"@[0] != "final"@[0]);
}

/// The weights of the known words, which order them against each other and
/// against a release (weight 30): `~` -10, `dev` -5, `alpha`/`a` 0,
/// `beta`/`b` 10, `milestone`/`m` 15, `rc`/`cr`/`c`/`preview`/`pre` 20,
/// `snapshot` 25, `final`/`ga`/`release`/`r`/`rev` 30, `^` 32, and
/// `post`/`sp`/`patch`/`p` 35.
pub proof fn law_known_word_weights()
    ensures
        tag_weight_spec("~"@) == Some(-10i32),
        tag_weight_spec("dev"@) == Some(-5i32),
        tag_weight_spec("alpha"@) == Some(0i32),
        tag_weight_spec("a"@) == Some(0i32),
        tag_weight_spec("beta"@) == Some(10i32),
        tag_weight_spec("b"@) == Some(10i32),
        tag_weight_spec("milestone"@) == Some(15i32),
        tag_weight_spec("m"@) == Some(15i32),
        tag_weight_spec("rc"@) == Some(20i32),
        tag_weight_spec("cr"@) == Some(20i32),
        tag_weight_spec("c"@) == Some(20i32),
        tag_weight_spec("preview"@) == Some(20i32),
        tag_weight_spec("pre"@) == Some(20i32),
        tag_weight_spec("snapshot"@) == Some(25i32),
        tag_weight_spec("final"@) == Some(30i32),
        tag_weight_spec("ga"@) == Some(30i32),
        tag_weight_spec("release"@) == Some(30i32),
        tag_weight_spec("r"@) == Some(30i32),
        tag_weight_spec("rev"@) == Some(30i32),
        tag_weight_spec("^"@) == Some(32i32),
        tag_weight_spec("post"@) == Some(35i32),
        tag_weight_spec("sp"@) == Some(35i32),
        tag_weight_spec("patch"@) == Some(35i32),
        tag_weight_spec("p"@) == Some(35i32),
{
    reveal_strlit("~");
    reveal_strlit("dev");
    reveal_strlit("alpha");
    reveal_strlit("a");
    reveal_strlit("beta");
    reveal_strlit("b");
    reveal_strlit("milestone");
    reveal_strlit("m");
    reveal_strlit("rc");
    reveal_strlit("cr");
    reveal_strlit("c");
    reveal_strlit("preview");
    reveal_strlit("pre");
    reveal_strlit("snapshot");
    reveal_strlit("final");
    reveal_strlit("ga");
    reveal_strlit("release");
    reveal_strlit("r");
    reveal_strlit("rev");
    reveal_strlit("^");
    reveal_strlit("post");
    reveal_strlit("sp");
    reveal_strlit("patch");
    reveal_strlit("p");
    assert("~"@.len() == 1);
    assert("dev"@.len() == 3);
    assert("alpha"@.len() == 5);
    assert("a"@.len() == 1);
    assert("beta"@.len() == 4);
    assert("b"@.len() == 1);
    assert("milestone"@.len() == 9);
    assert("m"@.len() == 1);
    assert("rc"@.len() == 2);
    assert("cr"@.len() == 2);
    assert("c"@.len() == 1);
    assert("preview"@.len() == 7);
    assert("pre"@.len() == 3);
    assert("snapshot"@.len() == 8);
    assert("final"@.len() == 5);
    assert("ga"@.len() == 2);
    assert("release"@.len() == 7);
    assert("r"@.len() == 1);
    assert("rev"@.len() == 3);
    assert("^"@.len() == 1);
    assert("post"@.len() == 4);
    assert("sp"@.len() == 2);
    assert("patch"@.len() == 5);
    assert("p"@.len() == 1);
    assert("~"@[0] != "a"@[0]);
    assert("~"@[0] != "b"@[0]);
    assert("~"@[0] != "m"@[0]);
    assert("~"@[0] != "c"@[0]);
    assert("~"@[0] != "r"@[0]);
    assert("~"@[0] != "^"@[0]);
    assert("~"@[0] != "p"@[0]);
    assert("a"@[0] != "b"@[0]);
    assert("a"@[0] != "m"@[0]);
    assert("a"@[0] != "c"@[0]);
    assert("a"@[0] != "r"@[0]);
    assert("a"@[0] != "^"@[0]);
    assert("a"@[0] != "p"@[0]);
    assert("b"@[0] != "m"@[0]);
    assert("b"@[0] != "c"@[0]);
    assert("b"@[0] != "r"@[0]);
    assert("b"@[0] != "^"@[0]);
    assert("b"@[0] != "p"@[0]);
    assert("m"@[0] != "c"@[0]);
    assert("m"@[0] != "r"@[0]);
    assert("m"@[0] != "^"@[0]);
    assert("m"@[0] != "p"@[0]);
    assert("c"@[0] != "r"@[0]);
    assert("c"@[0] != "^"@[0]);
    assert("c"@[0] != "p"@[0]);
    assert("r"@[0] != "^"@[0]);
    assert("r"@[0] != "p"@[0]);
    assert("^"@[0] != "p"@[0]);
    assert("dev"@[0] != "pre"@[0]);
    assert("dev"@[0] != "rev"@[0]);
    assert("pre"@[0] != "rev"@[0]);
    assert("alpha"@[0] != "final"@[0]);
    assert("alpha"@[0] != "patch"@[0]);
    assert("final"@[0] != "patch"@[0]);
    assert("beta"@[0] != "post"@[0]);
    assert("rc"@[0] != "cr"@[0]);
    assert("rc"@[0] != "ga"@[0]);
    assert("rc"@[0] != "sp"@[0]);
    assert("cr"@[0] != "ga"@[0]);
    assert("cr"@[0] != "sp"@[0]);
    assert("ga"@[0] != "sp"@[0]);
    assert("preview"@[0] != "release"@[0]);
}

pub fn tag_weight(s: &str) -> (r: Option<i32>)
    ensures
        r == tag_weight_spec(s@),
{
    if str_eq(s, "~") {
        Some(-10)
    } else if str_eq(s, "dev") {
        Some(-5)
    } else if str_eq(s, "alpha") || str_eq(s, "a") {
        Some(0)
    } else if str_eq(s, "beta") || str_eq(s, "b") {
        Some(10)
    } else if str_eq(s, "milestone") || str_eq(s, "m") {
        Some(15)
    } else if str_eq(s, "rc") || str_eq(s, "cr") || str_eq(s, "c") || str_eq(s, "preview")
        || str_eq(s, "pre") {
        Some(20)
    } else if str_eq(s, "snapshot") {
        Some(25)
    } else if str_eq(s, "final") || str_eq(s, "ga") || str_eq(s, "release") || str_eq(s, "r")
        || str_eq(s, "rev") {
        Some(30)
    } else if str_eq(s, "^") {
        Some(32)
    } else if str_eq(s, "post") || str_eq(s, "sp") || str_eq(s, "patch") || str_eq(s, "p") {
        Some(35)
    } else {
        None
    }
}

/// The spelling that stands for every known word of weight `w`.
pub open spec fn weight_word(w: i32) -> Seq<char> {
    if w == -10 {
        "~"@
    } else if w == -5 {
        "dev"@
    } else if w == 0 {
        "alpha"@
    } else if w == 10 {
        "beta"@
    } else if w == 15 {
        "milestone"@
    } else if w == 20 {
        "rc"@
    } else if w == 25 {
        "snapshot"@
    } else if w == 30 {
        "final"@
    } else if w == 32 {
        "^"@
    } else {
        "post"@
    }
}

/// A word as comparisons see it: a known word by the spelling of its
/// weight (`a` as `alpha`, `cr` as `rc`), any other word as it is.
pub open spec fn canon_word(t: Seq<char>) -> Seq<char> {
    match tag_weight_spec(t) {
        Some(w) => weight_word(w),
        None => t,
    }
}

/// A segment with its word, if any, in canonical spelling.
pub open spec fn canon_seg(x: SegV) -> SegV {
    match x {
        SegV::Num(n) => SegV::Num(n),
        SegV::Text(t) => SegV::Text(canon_word(t)),
    }
}

/// Segments with their words in canonical spelling.
pub open spec fn canonical(s: Seq<SegV>) -> Seq<SegV> {
    s.map_values(|x: SegV| canon_seg(x))
}

fn weight_word_exec(w: i32) -> (r: String)
    ensures
        r@ == weight_word(w),
{
    if w == -10 {
        "~".to_owned()
    } else if w == -5 {
        "dev".to_owned()
    } else if w == 0 {
        "alpha".to_owned()
    } else if w == 10 {
        "beta".to_owned()
    } else if w == 15 {
        "milestone".to_owned()
    } else if w == 20 {
        "rc".to_owned()
    } else if w == 25 {
        "snapshot".to_owned()
    } else if w == 30 {
        "final".to_owned()
    } else if w == 32 {
        "^".to_owned()
    } else {
        "post".to_owned()
    }
}

/// A word in canonical spelling.
pub fn canon_text(t: &str) -> (r: String)
    ensures
        r@ == canon_word(t@),
{
    match tag_weight(t) {
        Some(w) => weight_word_exec(w),
        None => t.to_owned(),
    }
}

/// A segment with its word, if any, in canonical spelling.
pub fn canon_segment(x: &Seg) -> (r: Seg)
    ensures
        r@ == canon_seg(x@),
{
    match x {
        Seg::Num(n) => Seg::Num(*n),
        Seg::Text(t) => Seg::Text(canon_text(t.as_str())),
    }
}

pub fn is_prerelease_tag(s: &str) -> (r: bool)
    ensures
        r == is_prerelease_tag_spec(s@),
{
    match tag_weight(s) {
        Some(w) => w < 30,
        None => false,
    }
}

pub fn is_postrelease_tag(s: &str) -> (r: bool)
    ensures
        r == is_postrelease_tag_spec(s@),
{
    match tag_weight(s) {
        Some(w) => w > 30,
        None => false,
    }
}

// ---------------------------------------------------------------------------
// The `v` prefix
// ---------------------------------------------------------------------------

/// Without a leading `v` or `V` that is followed by a digit.
pub open spec fn strip_v_bytes(b: Seq<u8>) -> Seq<u8> {
    if b.len() > 1 && (b[0] == LOWER_V || b[0] == UPPER_V) && is_digit(b[1]) {
        b.drop_first()
    } else {
        b
    }
}

pub fn strip_v(s: &str) -> (r: &str)
    ensures
        r.spec_bytes() == strip_v_bytes(s.spec_bytes()),
{
    let b = s.as_bytes();
    if b.len() > 1 && (b[0] == LOWER_V || b[0] == UPPER_V) && byte_is_digit(b[1]) {
        proof {
            lemma_cut_around_ascii(b@, 0);
            assert(b@.subrange(1, b@.len() as int) =~= b@.drop_first());
        }
        substr_from(s, 1)
    } else {
        s
    }
}

// ---------------------------------------------------------------------------
// Ecosystems
// ---------------------------------------------------------------------------

#[derive(Debug, Clone, Copy, PartialEq, Eq, Hash, Structural)]
pub enum Ecosystem {
    Generic,
    Semver,
    Pep440,
    Debian,
    Rpm,
    Ruby,
    Maven,
    Go,
    Npm,
    Nuget,
    Composer,
    Crates,
    Hex,
    Swift,
    Calver,
    Alpine,
    Docker,
}

/// The ecosystem that a (lower-case) name or alias stands for.
pub open spec fn ecosystem_by_name(n: Seq<char>) -> Option<Ecosystem> {
    if n == "generic"@ {
        Some(Ecosystem::Generic)
    } else if n == "semver"@ || n == "semver_strict"@ || n == "semver-strict"@ {
        Some(Ecosystem::Semver)
    } else if n == "pep440"@ || n == "pep-440"@ || n == "python"@ {
        Some(Ecosystem::Pep440)
    } else if n == "debian"@ || n == "dpkg"@ || n == "deb"@ {
        Some(Ecosystem::Debian)
    } else if n == "rpm"@ || n == "redhat"@ {
        Some(Ecosystem::Rpm)
    } else if n == "ruby"@ || n == "gem"@ || n == "rubygems"@ {
        Some(Ecosystem::Ruby)
    } else if n == "maven"@ || n == "mvn"@ {
        Some(Ecosystem::Maven)
    } else if n == "go"@ || n == "golang"@ {
        Some(Ecosystem::Go)
    } else if n == "npm"@ || n == "node"@ || n == "nodejs"@ {
        Some(Ecosystem::Npm)
    } else if n == "nuget"@ || n == "dotnet"@ {
        Some(Ecosystem::Nuget)
    } else if n == "composer"@ || n == "packagist"@ || n == "php"@ {
        Some(Ecosystem::Composer)
    } else if n == "crates"@ || n == "cargo"@ || n == "crates.io"@ {
        Some(Ecosystem::Crates)
    } else if n == "hex"@ || n == "elixir"@ || n == "erlang"@ {
        Some(Ecosystem::Hex)
    } else if n == "swift"@ || n == "swiftpm"@ {
        Some(Ecosystem::Swift)
    } else if n == "calver"@ {
        Some(Ecosystem::Calver)
    } else if n == "alpine"@ || n == "apk"@ {
        Some(Ecosystem::Alpine)
    } else if n == "docker"@ || n == "oci"@ {
        Some(Ecosystem::Docker)
    } else {
        None
    }
}

/// The message for a name that is no ecosystem.
pub open spec fn unsupported_ecosystem_message(n: Seq<char>) -> Seq<char> {
    "unsupported ecosystem '"@ + n
        + "'; expected one of: generic, semver, pep440, debian, rpm, ruby, maven, go, npm, nuget, composer, crates, hex, swift, calver, alpine, docker"@
}

/// The canonical name of an ecosystem.
pub open spec fn ecosystem_name(e: Ecosystem) -> Seq<char> {
    match e {
        Ecosystem::Generic => "generic"@,
        Ecosystem::Semver => "semver"@,
        Ecosystem::Pep440 => "pep440"@,
        Ecosystem::Debian => "debian"@,
        Ecosystem::Rpm => "rpm"@,
        Ecosystem::Ruby => "ruby"@,
        Ecosystem::Maven => "maven"@,
        Ecosystem::Go => "go"@,
        Ecosystem::Npm => "npm"@,
        Ecosystem::Nuget => "nuget"@,
        Ecosystem::Composer => "composer"@,
        Ecosystem::Crates => "crates"@,
        Ecosystem::Hex => "hex"@,
        Ecosystem::Swift => "swift"@,
        Ecosystem::Calver => "calver"@,
        Ecosystem::Alpine => "alpine"@,
        Ecosystem::Docker => "docker"@,
    }
}

impl Ecosystem {
    /// The ecosystem named by `input`, case-insensitively, or the message
    /// listing the accepted names.
    pub fn from_str(input: &str) -> (r: Result<Ecosystem, String>)
        ensures
            match ecosystem_by_name(lower_chars(input@)) {
                Some(e) => r == Ok::<Ecosystem, String>(e),
                None => r matches Err(m) && m@ == unsupported_ecosystem_message(
                    lower_chars(input@),
                ),
            },
    {
        let lower = to_ascii_lowercase(input);
        let n = lower.as_str();
        if str_eq(n, "generic") {
            Ok(Ecosystem::Generic)
        } else if str_eq(n, "semver") || str_eq(n, "semver_strict") || str_eq(n, "semver-strict") {
            Ok(Ecosystem::Semver)
        } else if str_eq(n, "pep440") || str_eq(n, "pep-440") || str_eq(n, "python") {
            Ok(Ecosystem::Pep440)
        } else if str_eq(n, "debian") || str_eq(n, "dpkg") || str_eq(n, "deb") {
            Ok(Ecosystem::Debian)
        } else if str_eq(n, "rpm") || str_eq(n, "redhat") {
            Ok(Ecosystem::Rpm)
        } else if str_eq(n, "ruby") || str_eq(n, "gem") || str_eq(n, "rubygems") {
            Ok(Ecosystem::Ruby)
        } else if str_eq(n, "maven") || str_eq(n, "mvn") {
            Ok(Ecosystem::Maven)
        } else if str_eq(n, "go") || str_eq(n, "golang") {
            Ok(Ecosystem::Go)
        } else if str_eq(n, "npm") || str_eq(n, "node") || str_eq(n, "nodejs") {
            Ok(Ecosystem::Npm)
        } else if str_eq(n, "nuget") || str_eq(n, "dotnet") {
            Ok(Ecosystem::Nuget)
        } else if str_eq(n, "composer") || str_eq(n, "packagist") || str_eq(n, "php") {
            Ok(Ecosystem::Composer)
        } else if str_eq(n, "crates") || str_eq(n, "cargo") || str_eq(n, "crates.io") {
            Ok(Ecosystem::Crates)
        } else if str_eq(n, "hex") || str_eq(n, "elixir") || str_eq(n, "erlang") {
            Ok(Ecosystem::Hex)
        } else if str_eq(n, "swift") || str_eq(n, "swiftpm") {
            Ok(Ecosystem::Swift)
        } else if str_eq(n, "calver") {
            Ok(Ecosystem::Calver)
        } else if str_eq(n, "alpine") || str_eq(n, "apk") {
            Ok(Ecosystem::Alpine)
        } else if str_eq(n, "docker") || str_eq(n, "oci") {
            Ok(Ecosystem::Docker)
        } else {
            let mut m = "unsupported ecosystem '".to_owned();
            m.append(n);
            m.append(
                "'; expected one of: generic, semver, pep440, debian, rpm, ruby, maven, go, npm, nuget, composer, crates, hex, swift, calver, alpine, docker",
            );
            Err(m)
        }
    }

    pub fn as_str(self) -> (r: &'static str)
        ensures
            r@ == ecosystem_name(self),
    {
        match self {
            Ecosystem::Generic => "generic",
            Ecosystem::Semver => "semver",
            Ecosystem::Pep440 => "pep440",
            Ecosystem::Debian => "debian",
            Ecosystem::Rpm => "rpm",
            Ecosystem::Ruby => "ruby",
            Ecosystem::Maven => "maven",
            Ecosystem::Go => "go",
            Ecosystem::Npm => "npm",
            Ecosystem::Nuget => "nuget",
            Ecosystem::Composer => "composer",
            Ecosystem::Crates => "crates",
            Ecosystem::Hex => "hex",
            Ecosystem::Swift => "swift",
            Ecosystem::Calver => "calver",
            Ecosystem::Alpine => "alpine",
            Ecosystem::Docker => "docker",
        }
    }
}

// ---------------------------------------------------------------------------
// Auto-detection
// ---------------------------------------------------------------------------

/// The text `m` occurs first at some index `p`, and the byte after it is a
/// digit (as in `.el9`, `.fc40`, `.amzn2`).
pub open spec fn rpm_marker(b: Seq<u8>, m: Seq<u8>) -> bool {
    match first_sub_pos(b, m) {
        Some(p) => p + m.len() < b.len() && is_digit(b[p + m.len()]),
        None => false,
    }
}

/// A letter `a` or `b` between two digits, or `rc` between two digits, at `i`.
pub open spec fn pep440_pattern_at(b: Seq<u8>, i: int) -> bool {
    &&& 1 <= i < b.len() - 1
    &&& {
        ||| (b[i] == LOWER_A || b[i] == LOWER_B) && is_digit(b[i - 1]) && is_digit(b[i + 1])
        ||| i >= 2 && b[i - 1] == LOWER_R && b[i] == LOWER_C && is_digit(b[i - 2]) && is_digit(
            b[i + 1],
        )
    }
}

/// The last `-r` is not at the start and is followed by digits only.
pub open spec fn alpine_revision(b: Seq<u8>) -> bool {
    match last_sub_pos(b, "-r".spec_bytes()) {
        Some(p) => p > 0 && p + 2 < b.len() && all_digits(b.subrange(p + 2, b.len() as int)),
        None => false,
    }
}

/// A dot-separated part that reads as a Ruby pre-release qualifier.
pub open spec fn ruby_qualifier(part: Seq<u8>) -> bool {
    ||| part == "pre".spec_bytes()
    ||| part == "rc".spec_bytes()
    ||| starts_with(part, "beta".spec_bytes())
    ||| starts_with(part, "alpha".spec_bytes())
}

/// Some dot-separated part of `b` is a Ruby qualifier.
pub open spec fn has_ruby_part(b: Seq<u8>) -> bool
    decreases b.len(),
    via has_ruby_part_decreases
{
    match first_pos(b, DOT) {
        Some(p) => ruby_qualifier(b.subrange(0, p)) || has_ruby_part(
            b.subrange(p + 1, b.len() as int),
        ),
        None => ruby_qualifier(b),
    }
}

#[via_fn]
proof fn has_ruby_part_decreases(b: Seq<u8>) {
    lemma_first_pos(b, DOT);
}

/// The leading digits of `b` denote a year from 1990 to 2100.
pub open spec fn leading_year(b: Seq<u8>) -> bool {
    let n = digit_run(b);
    n > 0 && 1990 <= decimal(b.subrange(0, n as int)) <= 2100
}

/// The ecosystem that the lower-cased version bytes `b` most likely belong to.
pub open spec fn autodetect_spec(b: Seq<u8>) -> Ecosystem {
    if has_byte(b, BANG) {
        Ecosystem::Pep440
    } else if has_byte(b, TILDE) {
        Ecosystem::Debian
    } else if has_byte(b, CARET) {
        Ecosystem::Rpm
    } else if contains_sub(b, ".post".spec_bytes()) || contains_sub(b, ".dev".spec_bytes()) {
        Ecosystem::Pep440
    } else if ends_with(b, "+incompatible".spec_bytes()) {
        Ecosystem::Go
    } else if ends_with(b, "-snapshot".spec_bytes()) {
        Ecosystem::Maven
    } else if contains_sub(b, "_alpha".spec_bytes()) || contains_sub(b, "_beta".spec_bytes())
        || contains_sub(b, "_p".spec_bytes()) || contains_sub(b, "_rc".spec_bytes())
        || contains_sub(b, "_pre".spec_bytes()) || alpine_revision(b) {
        Ecosystem::Alpine
    } else if contains_sub(b, "+deb".spec_bytes()) || contains_sub(b, "+ubuntu".spec_bytes()) {
        Ecosystem::Debian
    } else if rpm_marker(b, ".el".spec_bytes()) || rpm_marker(b, ".fc".spec_bytes())
        || rpm_marker(b, ".amzn".spec_bytes()) {
        Ecosystem::Rpm
    } else if exists|i: int| pep440_pattern_at(b, i) {
        Ecosystem::Pep440
    } else if !has_byte(b, DASH) && !has_byte(b, UNDERSCORE) && has_ruby_part(b) {
        Ecosystem::Ruby
    } else if leading_year(b) && has_byte(b, DOT) {
        Ecosystem::Calver
    } else {
        Ecosystem::Generic
    }
}

fn rpm_marker_exec(b: &[u8], m: &[u8]) -> (r: bool)
    ensures
        r == rpm_marker(b@, m@),
{
    proof {
        lemma_first_sub_pos(b@, m@);
    }
    let n = b.len();
    match find_sub(b, m) {
        Some(p) => {
            assert(matches_at(b@, m@, p as int));
            let after = p + m.len();
            after < n && byte_is_digit(b[after])
        },
        None => false,
    }
}

fn has_pep440_pattern(b: &[u8]) -> (r: bool)
    ensures
        r == exists|i: int| pep440_pattern_at(b@, i),
{
    let n = b.len();
    if n < 3 {
        return false;
    }
    let mut i: usize = 1;
    while i < n - 1
        invariant
            n == b@.len(),
            n >= 3,
            1 <= i <= n - 1,
            forall|k: int| 1 <= k < i ==> !pep440_pattern_at(b@, k),
        decreases n - i,
    {
        if (b[i] == LOWER_A || b[i] == LOWER_B) && byte_is_digit(b[i - 1]) && byte_is_digit(
            b[i + 1],
        ) {
            assert(pep440_pattern_at(b@, i as int));
            return true;
        }
        if i >= 2 && b[i - 1] == LOWER_R && b[i] == LOWER_C && byte_is_digit(b[i - 2])
            && byte_is_digit(b[i + 1]) {
            assert(pep440_pattern_at(b@, i as int));
            return true;
        }
        i += 1;
    }
    false
}

fn alpine_revision_exec(b: &[u8]) -> (r: bool)
    ensures
        r == alpine_revision(b@),
{
    let pat = "-r".as_bytes();
    match rfind_sub(b, pat) {
        Some(p) => p > 0 && b.len() > 2 && p < b.len() - 2 && all_digits_from(b, p + 2),
        None => false,
    }
}

fn ruby_qualifier_exec(b: &[u8], start: usize, end: usize) -> (r: bool)
    requires
        start <= end <= b@.len(),
    ensures
        r == ruby_qualifier(b@.subrange(start as int, end as int)),
{
    let part = &b[start..end];
    bytes_equal(part, "pre".as_bytes()) || bytes_equal(part, "rc".as_bytes())
        || starts_with_bytes(part, "beta".as_bytes()) || starts_with_bytes(
        part,
        "alpha".as_bytes(),
    )
}

fn has_ruby_part_exec(b: &[u8]) -> (r: bool)
    ensures
        r == has_ruby_part(b@),
{
    let n = b.len();
    let mut pos: usize = 0;
    assert(b@.subrange(0, n as int) =~= b@);
    loop
        invariant
            n == b@.len(),
            pos <= n,
            has_ruby_part(b@) == has_ruby_part(b@.subrange(pos as int, n as int)),
        decreases n - pos,
    {
        let ghost cur = b@.subrange(pos as int, n as int);
        let rest = &b[pos..n];
        proof {
            lemma_first_pos(cur, DOT);
        }
        match find_byte(rest, DOT) {
            Some(p) => {
                assert(cur.subrange(0, p as int) =~= b@.subrange(pos as int, pos + p));
                assert(cur.subrange(p + 1, cur.len() as int) =~= b@.subrange(
                    pos + p + 1,
                    n as int,
                ));
                if ruby_qualifier_exec(b, pos, pos + p) {
                    return true;
                }
                pos = pos + p + 1;
            },
            None => {
                return ruby_qualifier_exec(b, pos, n);
            },
        }
    }
}

/// The ecosystem a version string most likely belongs to, judged from markers
/// in its lower-cased text, in a fixed order of precedence.
pub fn autodetect_ecosystem(version: &str) -> (r: Ecosystem)
    ensures
        r == autodetect_spec(encode_utf8(lower_chars(version@))),
{
    let lower = to_ascii_lowercase(version);
    let b = lower.as_str().as_bytes();
    if contains_byte(b, BANG) {
        return Ecosystem::Pep440;
    }
    if contains_byte(b, TILDE) {
        return Ecosystem::Debian;
    }
    if contains_byte(b, CARET) {
        return Ecosystem::Rpm;
    }
    if contains_bytes(b, ".post".as_bytes()) || contains_bytes(b, ".dev".as_bytes()) {
        return Ecosystem::Pep440;
    }
    if ends_with_bytes(b, "+incompatible".as_bytes()) {
        return Ecosystem::Go;
    }
    if ends_with_bytes(b, "-snapshot".as_bytes()) {
        return Ecosystem::Maven;
    }
    if contains_bytes(b, "_alpha".as_bytes()) || contains_bytes(b, "_beta".as_bytes())
        || contains_bytes(b, "_p".as_bytes()) || contains_bytes(b, "_rc".as_bytes())
        || contains_bytes(b, "_pre".as_bytes()) || alpine_revision_exec(b) {
        return Ecosystem::Alpine;
    }
    if contains_bytes(b, "+deb".as_bytes()) || contains_bytes(b, "+ubuntu".as_bytes()) {
        return Ecosystem::Debian;
    }
    if rpm_marker_exec(b, ".el".as_bytes()) || rpm_marker_exec(b, ".fc".as_bytes())
        || rpm_marker_exec(b, ".amzn".as_bytes()) {
        return Ecosystem::Rpm;
    }
    if has_pep440_pattern(b) {
        return Ecosystem::Pep440;
    }
    if !contains_byte(b, DASH) && !contains_byte(b, UNDERSCORE) && has_ruby_part_exec(b) {
        return Ecosystem::Ruby;
    }
    let n = digit_run_end(b, 0);
    if n > 0 {
        proof {
            lemma_digit_run(b@);
            assert(b@.skip(0) =~= b@);
            assert(b@.subrange(0, n as int) =~= b@.skip(0).subrange(0, n as int));
        }
        let year = saturated_decimal_of(b, 0, n);
        if 1990 <= year && year <= 2100 && contains_byte(b, DOT) {
            return Ecosystem::Calver;
        }
    }
    proof {
        assert(b@.skip(0) =~= b@);
    }
    Ecosystem::Generic
}

// ---------------------------------------------------------------------------
// The generic parser
// ---------------------------------------------------------------------------

/// The segments of lower-cased version bytes: runs of digits become numbers
/// (saturated at `u64::MAX`), runs of letters become words, `~` and `^`
/// become words of their own, and every other byte separates.
pub open spec fn tokens(b: Seq<u8>) -> Seq<SegV>
    decreases b.len(),
    via tokens_decreases
{
    if b.len() == 0 {
        seq![]
    } else if b[0] == TILDE {
        seq![SegV::Text("~"@)] + tokens(b.drop_first())
    } else if b[0] == CARET {
        seq![SegV::Text("^"@)] + tokens(b.drop_first())
    } else if is_digit(b[0]) {
        let n = digit_run(b) as int;
        seq![SegV::Num(saturated_decimal(b.subrange(0, n)))] + tokens(b.skip(n))
    } else if is_alpha(b[0]) {
        let n = alpha_run(b) as int;
        seq![SegV::Text(ascii_chars(b.subrange(0, n)))] + tokens(b.skip(n))
    } else {
        tokens(b.drop_first())
    }
}

#[via_fn]
proof fn tokens_decreases(b: Seq<u8>) {
    lemma_digit_run(b);
    lemma_alpha_run(b);
}

pub open spec fn seg_is_pre(s: SegV) -> bool {
    match s {
        SegV::Text(t) => is_prerelease_tag_spec(t),
        SegV::Num(_) => false,
    }
}

pub open spec fn seg_is_post(s: SegV) -> bool {
    match s {
        SegV::Text(t) => is_postrelease_tag_spec(t),
        SegV::Num(_) => false,
    }
}

pub open spec fn has_pre_segment(s: Seq<SegV>) -> bool {
    exists|k: int| 0 <= k < s.len() && seg_is_pre(#[trigger] s[k])
}

pub open spec fn has_post_segment(s: Seq<SegV>) -> bool {
    exists|k: int| 0 <= k < s.len() && seg_is_post(#[trigger] s[k])
}

/// The bytes the generic parser reads: trimmed, without a `v` prefix.
pub open spec fn generic_input(s: Seq<char>) -> Seq<u8> {
    strip_v_bytes(trimmed_bytes(s))
}

/// `t` starts with an epoch: digits that fit a `u64`, then `:` or `!`.
pub open spec fn has_epoch(t: Seq<u8>) -> bool {
    let k = digit_run(t) as int;
    &&& 0 < k < t.len()
    &&& (t[k] == COLON || t[k] == BANG)
    &&& decimal(t.subrange(0, k)) <= u64::MAX
}

pub open spec fn epoch_of(t: Seq<u8>) -> u64 {
    if has_epoch(t) {
        decimal(t.subrange(0, digit_run(t) as int)) as u64
    } else {
        0
    }
}

pub open spec fn after_epoch(t: Seq<u8>) -> Seq<u8> {
    if has_epoch(t) {
        t.subrange(digit_run(t) as int + 1, t.len() as int)
    } else {
        t
    }
}

/// The bytes before the first `+`.
pub open spec fn before_plus(a: Seq<u8>) -> Seq<u8> {
    match first_pos(a, PLUS) {
        Some(p) => a.subrange(0, p),
        None => a,
    }
}

/// The bytes after the first `+` (the build metadata).
pub open spec fn after_plus(a: Seq<u8>) -> Seq<u8> {
    match first_pos(a, PLUS) {
        Some(p) => a.subrange(p + 1, a.len() as int),
        None => seq![],
    }
}

/// The segments the generic parser finds in `t`.
pub open spec fn segments_of(t: Seq<u8>) -> Seq<SegV> {
    tokens(lower_bytes(before_plus(after_epoch(t))))
}

/// A version read by the generic parser.
#[derive(Debug, Clone)]
pub struct ParsedVersion {
    pub raw: String,
    pub epoch: u64,
    pub segments: Vec<Seg>,
    pub build: String,
    pub is_prerelease: bool,
    pub is_postrelease: bool,
}

/// The segments of `b`, and whether any of them is a pre- or a post-release
/// word.
fn tokenize(b: &[u8]) -> (r: (Vec<Seg>, bool, bool))
    ensures
        segs_view(r.0@) == tokens(b@),
        r.1 == has_pre_segment(tokens(b@)),
        r.2 == has_post_segment(tokens(b@)),
{
    let n = b.len();
    let mut out: Vec<Seg> = Vec::new();
    let mut pre = false;
    let mut post = false;
    let mut i: usize = 0;
    assert(b@.skip(0) =~= b@);
    while i < n
        invariant
            n == b@.len(),
            i <= n,
            tokens(b@) == segs_view(out@) + tokens(b@.skip(i as int)),
            pre == has_pre_segment(segs_view(out@)),
            post == has_post_segment(segs_view(out@)),
        decreases n - i,
    {
        let ghost cur = b@.skip(i as int);
        let ghost before = segs_view(out@);
        proof {
            lemma_skip_first(b@, i as int);
        }
        let c = b[i];
        if c == TILDE || c == CARET {
            let t = if c == TILDE {
                "~".to_owned()
            } else {
                "^".to_owned()
            };
            let tpre = c == TILDE;
            out.push(Seg::Text(t));
            pre = pre || tpre;
            post = post || !tpre;
            i += 1;
            proof {
                assert(segs_view(out@) =~= before.push(out@.last()@));
                lemma_marker_weights();
                assert(seg_is_pre(out@.last()@) == tpre);
                assert(seg_is_post(out@.last()@) == !tpre);
                lemma_push_flags(before, out@.last()@);
            }
        } else if byte_is_digit(c) {
            let j = digit_run_end(b, i);
            proof {
                lemma_digit_run(cur);
                assert(cur.subrange(0, (j - i) as int) =~= b@.subrange(i as int, j as int));
                assert(cur.skip((j - i) as int) =~= b@.skip(j as int));
                assert(all_digits(b@.subrange(i as int, j as int)));
            }
            let v = saturated_decimal_of(b, i, j);
            out.push(Seg::Num(v));
            i = j;
            proof {
                assert(segs_view(out@) =~= before.push(out@.last()@));
                lemma_push_flags(before, out@.last()@);
            }
        } else if byte_is_alpha(c) {
            let j = alpha_run_end(b, i);
            proof {
                lemma_alpha_run(cur);
                assert(cur.subrange(0, (j - i) as int) =~= b@.subrange(i as int, j as int));
                assert(cur.skip((j - i) as int) =~= b@.skip(j as int));
                assert(all_alpha(b@.subrange(i as int, j as int)));
                assert(all_ascii(b@.subrange(i as int, j as int))) by {
                    assert forall|k: int| 0 <= k < j - i implies #[trigger] b@.subrange(
                        i as int,
                        j as int,
                    )[k] < 128 by {
                        assert(is_alpha(b@.subrange(i as int, j as int)[k]));
                    }
                }
            }
            let word = ascii_string(&b[i..j]);
            let wpre = is_prerelease_tag(word.as_str());
            let wpost = is_postrelease_tag(word.as_str());
            out.push(Seg::Text(word));
            pre = pre || wpre;
            post = post || wpost;
            i = j;
            proof {
                assert(segs_view(out@) =~= before.push(out@.last()@));
                lemma_push_flags(before, out@.last()@);
            }
        } else {
            i += 1;
        }
    }
    proof {
        assert(b@.skip(n as int) =~= Seq::<u8>::empty());
        assert(segs_view(out@) + tokens(b@.skip(n as int)) =~= segs_view(out@));
    }
    (out, pre, post)
}

proof fn lemma_push_flags(s: Seq<SegV>, x: SegV)
    ensures
        has_pre_segment(s.push(x)) == (has_pre_segment(s) || seg_is_pre(x)),
        has_post_segment(s.push(x)) == (has_post_segment(s) || seg_is_post(x)),
{
    let t = s.push(x);
    if has_pre_segment(s) {
        let k = choose|k: int| 0 <= k < s.len() && seg_is_pre(#[trigger] s[k]);
        assert(t[k] == s[k]);
    }
    if has_pre_segment(t) {
        let k = choose|k: int| 0 <= k < t.len() && seg_is_pre(#[trigger] t[k]);
        if k < s.len() {
            assert(t[k] == s[k]);
        }
    }
    if seg_is_pre(x) {
        assert(t[s.len() as int] == x);
    }
    if has_post_segment(s) {
        let k = choose|k: int| 0 <= k < s.len() && seg_is_post(#[trigger] s[k]);
        assert(t[k] == s[k]);
    }
    if has_post_segment(t) {
        let k = choose|k: int| 0 <= k < t.len() && seg_is_post(#[trigger] t[k]);
        if k < s.len() {
            assert(t[k] == s[k]);
        }
    }
    if seg_is_post(x) {
        assert(t[s.len() as int] == x);
    }
}

/// Reads any string as a version: an optional epoch (`N:` or `N!`), segments
/// of digits and letters, and build metadata after the first `+`.
pub fn parse_generic(input: &str) -> (r: ParsedVersion)
    ensures
        r.raw@ == input@,
        r.epoch == epoch_of(generic_input(input@)),
        segs_view(r.segments@) == segments_of(generic_input(input@)),
        encode_utf8(r.build@) == after_plus(after_epoch(generic_input(input@))),
        r.is_prerelease == has_pre_segment(segments_of(generic_input(input@))),
        r.is_postrelease == has_post_segment(segments_of(generic_input(input@))),
{
    let raw = input.to_owned();
    let t = strip_v(trim(input));
    let tb = t.as_bytes();
    let n = tb.len();
    let ghost tv = tb@;
    assert(tv == generic_input(input@));
    let k = digit_run_end(tb, 0);
    proof {
        assert(tv.skip(0) =~= tv);
        lemma_digit_run(tv);
    }
    let mut epoch: u64 = 0;
    let mut start: usize = 0;
    if k > 0 && k < n && (tb[k] == COLON || tb[k] == BANG) {
        match parse_u64(tb, 0, k) {
            Some(e) => {
                proof {
                    assert(tv.subrange(0, k as int).len() > 0);
                    assert(tv.subrange(0, k as int)[0] != PLUS);
                }
                epoch = e;
                start = k + 1;
            },
            None => {
                proof {
                    assert(tv.subrange(0, k as int).len() > 0);
                    assert(tv.subrange(0, k as int)[0] != PLUS);
                }
            },
        }
    }
    let ghost a = tv.subrange(start as int, n as int);
    assert(a == after_epoch(tv));
    assert(epoch == epoch_of(tv));
    let rest = &tb[start..n];
    proof {
        lemma_first_pos(a, PLUS);
    }
    let (ver_end, build) = match find_byte(rest, PLUS) {
        Some(p) => {
            proof {
                lemma_str_valid(t);
                lemma_cut_around_ascii(tv, start + p);
                assert(tv.subrange(start + p + 1, n as int) =~= a.subrange(p + 1, a.len() as int));
            }
            let b = substr_from(t, start + p + 1).to_owned();
            (start + p, b)
        },
        None => {
            proof {
                assert(encode_utf8(Seq::<char>::empty()) =~= Seq::<u8>::empty());
            }
            (n, String::new())
        },
    };
    assert(tv.subrange(start as int, ver_end as int) =~= before_plus(a));
    let lower = lowercase_bytes(&tb[start..ver_end]);
    let (segments, is_prerelease, is_postrelease) = tokenize(&lower);
    ParsedVersion { raw, epoch, segments, build, is_prerelease, is_postrelease }
}

/// The generic parser.
/// `p` is what the generic parser makes of `input`.
pub open spec fn parsed_from(p: ParsedVersion, input: Seq<char>) -> bool {
    &&& p.raw@ == input
    &&& p.epoch == epoch_of(generic_input(input))
    &&& segs_view(p.segments@) == segments_of(generic_input(input))
    &&& encode_utf8(p.build@) == after_plus(after_epoch(generic_input(input)))
    &&& p.is_prerelease == has_pre_segment(segments_of(generic_input(input)))
    &&& p.is_postrelease == has_post_segment(segments_of(generic_input(input)))
}

pub fn parse(input: &str) -> (r: ParsedVersion)
    ensures
        parsed_from(r, input@),
        r.raw@ == input@,
        r.epoch == epoch_of(generic_input(input@)),
        segs_view(r.segments@) == segments_of(generic_input(input@)),
        encode_utf8(r.build@) == after_plus(after_epoch(generic_input(input@))),
        r.is_prerelease == has_pre_segment(segments_of(generic_input(input@))),
        r.is_postrelease == has_post_segment(segments_of(generic_input(input@))),
{
    parse_generic(input)
}

} // verus!
