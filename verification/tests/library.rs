use anyver::api::{bump_major_checked, bump_minor_checked, bump_patch_checked, bump_prerelease_checked};
use anyver::api::{
    bump_major, bump_minor, bump_patch, bump_prerelease, compare_str_with_ecosystem, eval_op,
    expand_shorthand, fmt_triple, is_auto, next_stable, parse_constraint, parse_num_prefix,
    satisfies, satisfies_checked,
};
use anyver::lists::{
    batch_compare, latest_stable, max_version, min_version, sort_indices, sort_versions,
    stable_versions,
};
use anyver::parser::{parse, Ecosystem, Seg};
use anyver::strategies::checks::{
    validate_alpine, validate_calver, validate_composer, validate_docker, validate_maven,
    validate_nuget, validate_ruby,
};
use anyver::strategies::pep440::{cmp_local, validate_pep440};
use anyver::strategies::{parse_for_ecosystem, strategy_for, ParsedRepr, Strategy};
use anyver::version::{compare_operands, op_result, CompareOp, Operand, Version};
use anyver::{autodetect, compare, eco_from_str, parse_for, parse_generic, EcoHandle};
use std::cmp::Ordering::{Equal, Greater, Less};

fn pairs(v: &[(String, String)]) -> Vec<(&str, &str)> {
    v.iter().map(|(a, b)| (a.as_str(), b.as_str())).collect()
}

// --- the facade ---

#[test]
fn facade_eco_from_str_accepts_aliases_in_any_case() {
    assert!(matches!(eco_from_str("SEMVER").map(|h| h.0), Ok(Ecosystem::Semver)));
    assert!(matches!(eco_from_str("Python").map(|h| h.0), Ok(Ecosystem::Pep440)));
    let err = eco_from_str("cobol").err().unwrap();
    assert!(err.starts_with("unsupported ecosystem 'cobol'"));
}

#[test]
fn facade_autodetect_and_compare() {
    assert_eq!(autodetect("1!2.0").0, Ecosystem::Pep440);
    let eco = EcoHandle(Ecosystem::Semver);
    let a = parse_for(eco, "1.0.0-alpha").unwrap();
    let b = parse_for(eco, "1.0.0").unwrap();
    assert_eq!(compare(eco, &a, &b), -1);
    assert_eq!(compare(eco, &b, &a), 1);
    assert_eq!(compare(eco, &b, &b), 0);
    assert_eq!(parse_for(eco, "1.0").err().unwrap(), "Expected 3 parts, got 2");
}

#[test]
fn facade_parse_generic_reads_anything() {
    let g = EcoHandle(Ecosystem::Generic);
    let a = parse_generic("v1.2");
    let b = parse_generic("1.2.0");
    assert_eq!(compare(g, &a, &b), 0);
    match a.0 {
        ParsedRepr::Generic(p) => assert_eq!(p.segments, vec![Seg::Num(1), Seg::Num(2)]),
        _ => panic!("generic parse expected"),
    }
}

// --- strategies and checks ---

#[test]
fn strategy_of_each_ecosystem() {
    assert_eq!(strategy_for(Ecosystem::Npm), Strategy::Semver);
    assert_eq!(strategy_for(Ecosystem::Docker), Strategy::Docker);
    assert_eq!(strategy_for(Ecosystem::Go), Strategy::Go);
}

#[test]
fn check_messages() {
    assert_eq!(validate_ruby("  ").unwrap_err(), "empty Ruby gem version");
    assert_eq!(validate_ruby("x1").unwrap_err(), "Ruby gem version must start with a digit: 'x1'");
    assert_eq!(validate_maven("").unwrap_err(), "empty Maven version");
    assert_eq!(validate_nuget("a").unwrap_err(), "NuGet version must start with a digit: 'a'");
    assert!(validate_composer(" v1.0 ").is_ok());
    assert_eq!(validate_composer("v").unwrap_err(), "Composer version must start with a digit: 'v'");
    assert_eq!(validate_calver("").unwrap_err(), "empty CalVer version");
    assert_eq!(validate_alpine(" r1").unwrap_err(), "Alpine version must start with a digit: ' r1'");
    assert_eq!(validate_docker("").unwrap_err(), "empty Docker version");
    assert!(validate_docker(" \t").is_ok());
    assert!(validate_docker("latest").is_ok());
}

#[test]
fn pep440_check_messages() {
    assert!(validate_pep440("1!2.0").is_ok());
    assert_eq!(validate_pep440("a!1.0").unwrap_err(), "invalid PEP 440 epoch: 'a'");
    assert_eq!(validate_pep440("!1.0").unwrap_err(), "invalid PEP 440 epoch: ''");
    assert_eq!(validate_pep440("1!+x").unwrap_err(), "empty PEP 440 version: '1!+x'");
    assert_eq!(validate_pep440("dev1").unwrap_err(), "PEP 440 version must start with a digit: 'dev1'");
    assert!(validate_pep440(" v1.0+local ").is_ok());
}

#[test]
fn pep440_local_labels() {
    assert_eq!(cmp_local("", ""), Equal);
    assert_eq!(cmp_local("", "a"), Less);
    assert_eq!(cmp_local("ubuntu.10", "ubuntu.9"), Greater);
    assert_eq!(cmp_local("007", "7"), Equal);
    assert_eq!(cmp_local("ABC", "abc"), Equal);
    assert_eq!(cmp_local("a.b", "a.b.c"), Less);
    assert_eq!(cmp_local("a", "1"), Less);
}

#[test]
fn docker_and_rpm_through_parse_for_ecosystem() {
    assert_eq!(parse_for_ecosystem(Ecosystem::Docker, "").unwrap_err(), "empty Docker version");
    assert_eq!(parse_for_ecosystem(Ecosystem::Rpm, " ").unwrap_err(), "empty RPM version");
    assert_eq!(parse_for_ecosystem(Ecosystem::Debian, "").unwrap_err(), "empty Debian version");
}

// --- constraints ---

#[test]
fn constraint_operators_and_errors() {
    assert_eq!(parse_constraint("!= 2").unwrap(), ("!=", "2"));
    let err = parse_constraint(" ~1 ").unwrap_err();
    assert_eq!(
        err,
        "invalid constraint: '~1'; expected operator (>=, <=, >, <, ==, !=) followed by version"
    );
    assert!(eval_op(">=", Equal));
    assert!(!eval_op(">", Equal));
    assert!(eval_op("!=", Less));
    assert!(!eval_op("=>", Greater));
}

#[test]
fn num_prefix_reading() {
    assert_eq!(parse_num_prefix("1.2.3.4"), Some((vec![1, 2, 3], 3)));
    assert_eq!(parse_num_prefix("1.x"), Some((vec![1], 1)));
    assert_eq!(parse_num_prefix("*"), Some((vec![], 0)));
    assert_eq!(parse_num_prefix("1.a"), None);
    assert_eq!(parse_num_prefix("  "), None);
}

#[test]
fn shorthand_expansions() {
    let e = |t: &str| expand_shorthand(t).unwrap();
    assert_eq!(pairs(&e("^1.2.3").unwrap()), vec![(">=", "1.2.3"), ("<", "2.0.0")]);
    assert_eq!(pairs(&e("^0.2.3").unwrap()), vec![(">=", "0.2.3"), ("<", "0.3.0")]);
    assert_eq!(pairs(&e("^0.0.3").unwrap()), vec![(">=", "0.0.3"), ("<", "0.0.4")]);
    assert_eq!(pairs(&e("~1.2").unwrap()), vec![(">=", "1.2.0"), ("<", "1.3.0")]);
    assert_eq!(pairs(&e("~1").unwrap()), vec![(">=", "1.0.0"), ("<", "2.0.0")]);
    assert_eq!(pairs(&e("1.x").unwrap()), vec![(">=", "1.0.0"), ("<", "2.0.0")]);
    assert_eq!(pairs(&e("1.2.*").unwrap()), vec![(">=", "1.2.0"), ("<", "1.3.0")]);
    assert_eq!(pairs(&e(" * ").unwrap()), vec![(">=", "0.0.0")]);
    assert_eq!(pairs(&e("<=2.0").unwrap()), vec![("<=", "2.0")]);
    assert_eq!(e("").unwrap_err(), "empty constraint");
    assert_eq!(e("^a").unwrap_err(), "invalid caret range: '^a'");
    assert_eq!(e("~").unwrap_err(), "invalid tilde range: '~'");
    assert_eq!(e("a.x").unwrap_err(), "invalid x-range: 'a.x'");
    assert!(expand_shorthand("^18446744073709551615").is_none());
    assert_eq!(fmt_triple(1, 20, 300), "1.20.300");
}

#[test]
fn satisfies_branches_and_parts() {
    assert_eq!(satisfies("1.5.0", ">=1.0,<2.0", "generic"), Ok(true));
    assert_eq!(satisfies("2.5.0", ">=1.0,<2.0", "generic"), Ok(false));
    assert_eq!(satisfies("2.5.0", "^1.0 || ^2.0", "semver"), Ok(true));
    assert_eq!(satisfies("1.0.0", " , ", "generic"), Ok(false));
    assert_eq!(satisfies("1.0.0", ",>=1.0,", "generic"), Ok(true));
    assert_eq!(satisfies("1.2.9", "~1.2", "generic"), Ok(true));
    assert!(satisfies("1.0", "bogus", "generic").is_err());
    assert!(satisfies("1.0", ">=1.0", "nope").is_err());
    assert_eq!(satisfies_checked("1.0", "^18446744073709551615", "generic"), None);
    assert_eq!(satisfies_checked("1.0", ">=1.0 || ^18446744073709551615", "generic"), Some(Ok(true)));
}

// --- bumps ---

#[test]
fn bumps() {
    assert_eq!(bump_major("1.2.3"), "2.0.0");
    assert_eq!(bump_major("alpha"), "1.0.0");
    assert_eq!(bump_minor("1.2.3"), "1.3.0");
    assert_eq!(bump_minor("7"), "7.1.0");
    assert_eq!(bump_patch("1.2.3"), "1.2.4");
    assert_eq!(bump_patch("1.2"), "1.2.1");
    assert_eq!(next_stable("1.2.3-alpha.1+build"), "1.2.3");
    assert_eq!(next_stable("v2"), "2.0.0");
    assert_eq!(bump_prerelease("1.0.0-alpha.1", "alpha"), "1.0.0-alpha.2");
    assert_eq!(bump_prerelease("1.0.0-alpha", "ALPHA"), "1.0.0-alpha.0");
    assert_eq!(bump_prerelease("1.0.0-alpha.1", "beta"), "1.0.0-beta.0");
    assert_eq!(bump_prerelease("1.0.0", "rc"), "1.0.0-rc.0");
}

// --- version objects ---

#[test]
fn version_new_and_fallback() {
    let v = Version::new("1.2.3-alpha.1", "auto").unwrap();
    assert_eq!(v.ecosystem(), "generic");
    assert_eq!((v.major(), v.minor(), v.patch()), (1, 2, 3));
    assert!(v.is_prerelease() && !v.is_stable());
    let p = Version::new("1.0.dev1", "auto").unwrap();
    assert_eq!(p.ecosystem(), "pep440");
    // detected as PEP 440 but no PEP 440 version: falls back to generic
    let g = Version::new("abc.dev", "auto").unwrap();
    assert_eq!(g.ecosystem(), "generic");
    assert!(Version::new("1.0", "semver").is_err());
    assert!(Version::new("1.0", "bogus").is_err());
    assert!(is_auto("AUTO") && !is_auto("auto "));
}

#[test]
fn version_comparisons() {
    let a = Version::new("1.0.0", "semver").unwrap();
    let b = Version::new("1.0.1", "semver").unwrap();
    let c = Version::new("1.0.1", "generic").unwrap();
    assert_eq!(a.richcmp_ord(&b), Less);
    assert_eq!(b.richcmp_ord(&c), Equal);
    assert_eq!(a.richcmp(Operand::Text("0.9.0"), CompareOp::Gt), Ok(true));
    assert!(a.richcmp(Operand::Text("0.9"), CompareOp::Gt).is_err());
    assert_eq!(a.compare(Operand::Version(&b), None), Ok(-1));
    assert_eq!(a.compare(Operand::Text("1.0"), Some("generic")), Ok(0));
    assert!(a.compare(Operand::Text("1.0"), Some("what")).is_err());
    assert_eq!(a.cmp_with_str("1.0.0"), Ok(Equal));
    assert!(op_result(CompareOp::Le, Equal) && !op_result(CompareOp::Ne, Equal));
    assert_eq!(compare_operands(Operand::Text("2.0"), Operand::Version(&a), "generic"), Ok(1));
}

#[test]
fn version_keys_and_accessors() {
    let v = Version::new("1.0.0-alpha.1", "generic").unwrap();
    let key = v.sort_key();
    let expected: Vec<(i64, i64, String)> = vec![
        (2, 0, String::new()),
        (2, 1, String::new()),
        (1, 0, "alpha".to_string()),
        (2, 1, String::new()),
        (1, 30, String::new()),
    ];
    assert_eq!(key, expected);
    let big = Version::new("99999999999999999999", "generic").unwrap();
    assert_eq!(big.sort_key()[1], (2, i64::MAX, String::new()));
    let a = Version::new("1.0", "generic").unwrap();
    let b = Version::new("1.0.0-final", "generic").unwrap();
    assert_eq!(a.hash_key(), b.hash_key());
    assert_eq!(a.hash_key(), (0, vec![Seg::Num(1)]));
    assert_eq!(v.segment_index(-1), Some(4));
    assert_eq!(v.segment_index(5), None);
    assert_eq!(v.segment_index(-6), None);
    assert_eq!(v.release(), vec![1, 0, 0]);
    assert_eq!(v.count(), 5);
    assert_eq!(v.repr_text(), "Version('1.0.0-alpha.1')");
    assert_eq!(Version::new("1.0+b7", "auto").unwrap().build(), "b7");
    assert!(!Version::new("", "generic").unwrap().is_nonempty());
}

// --- lists ---

#[test]
fn sorting_lists() {
    let items = vec![
        Operand::Text("2.0"),
        Operand::Text("1.0"),
        Operand::Text("1.0.0"),
        Operand::Text("1.0-alpha"),
    ];
    assert_eq!(sort_versions(&items, "generic"), Ok(vec![3, 1, 2, 0]));
    assert_eq!(max_version(&items, "generic"), Ok(0));
    assert_eq!(min_version(&items, "generic"), Ok(3));
    assert_eq!(max_version(&[].to_vec(), "generic"), Err("empty sequence".to_string()));
    let bad = vec![Operand::Text("1.0.0"), Operand::Text("1.0")];
    assert_eq!(sort_versions(&bad, "semver"), Err("Expected 3 parts, got 2".to_string()));
}

#[test]
fn equal_items_keep_their_order() {
    let items = vec![Operand::Text("1.0.0"), Operand::Text("1.0"), Operand::Text("1")];
    assert_eq!(sort_versions(&items, "generic"), Ok(vec![0, 1, 2]));
    assert_eq!(min_version(&items, "generic"), Ok(0));
    assert_eq!(max_version(&items, "generic"), Ok(2));
    let reprs: Vec<ParsedRepr> = Vec::new();
    assert_eq!(sort_indices(&reprs, Ecosystem::Generic), Vec::<usize>::new());
}

#[test]
fn stable_lists() {
    let items = vec![
        Operand::Text("1.0.0-rc.1"),
        Operand::Text("1.0.0"),
        Operand::Text("0.9.0"),
        Operand::Text("1.1.0-beta"),
    ];
    assert_eq!(stable_versions(&items, "semver"), Ok(vec![1, 2]));
    assert_eq!(latest_stable(&items, "semver"), Ok(1));
    let pre = vec![Operand::Text("1.0-alpha")];
    assert_eq!(latest_stable(&pre, "generic"), Err("no stable versions found".to_string()));
    let bad = vec![Operand::Text("1.0-alpha"), Operand::Text("x")];
    assert_eq!(stable_versions(&bad, "ruby"), Err("Ruby gem version must start with a digit: 'x'".to_string()));
}

#[test]
fn batch_comparisons() {
    let v = Version::new("1!1.0", "pep440").unwrap();
    let pairs = vec![
        (Operand::Text("1.0"), Operand::Text("2.0")),
        (Operand::Version(&v), Operand::Text("2.0")),
        (Operand::Text("1.0.0-a"), Operand::Text("1.0.0")),
    ];
    assert_eq!(batch_compare(&pairs, "auto"), Ok(vec![-1, 1, -1]));
    assert!(batch_compare(&pairs, "semver").is_err());
    assert!(batch_compare(&Vec::new(), "nope").is_err());
    assert_eq!(batch_compare(&Vec::new(), "auto"), Ok(vec![]));
}

// --- laws on concrete values ---

#[test]
fn comparisons_flip_when_sides_swap() {
    for eco in ["generic", "semver", "debian", "rpm", "pep440", "maven"] {
        for (a, b) in [("1.0.0", "1.0.1"), ("2.0.0~rc1", "2.0.0"), ("1.0.0+x", "1.0.0")] {
            let ab = compare_str_with_ecosystem(a, b, eco);
            let ba = compare_str_with_ecosystem(b, a, eco);
            match (ab, ba) {
                (Ok(x), Ok(y)) => assert_eq!(x, y.reverse()),
                (x, y) => assert_eq!(x.is_ok(), y.is_ok()),
            }
            assert_eq!(compare_str_with_ecosystem(a, a, eco).ok().unwrap_or(Equal), Equal);
        }
    }
}

#[test]
fn auto_detection_is_one_sided() {
    assert!(compare_str_with_ecosystem("1.0.dev1", "x", "auto").is_err());
    assert!(compare_str_with_ecosystem("x", "1.0.dev1", "auto").is_ok());
}

#[test]
fn generic_order_is_not_transitive() {
    let g = |a: &str, b: &str| compare_str_with_ecosystem(a, b, "generic").unwrap();
    assert_eq!(g("1", "1.post1"), Less);
    assert_eq!(g("1.post1", "1.0.0-alpha"), Less);
    assert_eq!(g("1.0.0-alpha", "1"), Less);
}

#[test]
fn parse_keeps_raw_and_trims() {
    let p = parse("  V2.0 ");
    assert_eq!(p.raw, "  V2.0 ");
    assert_eq!(p.segments, vec![Seg::Num(2), Seg::Num(0)]);
}

#[test]
fn strict_orders_chain() {
    for (eco, a, b, c) in [
        ("semver", "1.0.0-alpha", "1.0.0-alpha.1", "1.0.0"),
        ("debian", "1.0~rc1", "1.0", "1.0+deb9u1"),
        ("rpm", "1.0~rc1", "1.0", "1.0^git1"),
    ] {
        let ab = compare_str_with_ecosystem(a, b, eco).unwrap();
        let bc = compare_str_with_ecosystem(b, c, eco).unwrap();
        let ac = compare_str_with_ecosystem(a, c, eco).unwrap();
        assert_eq!((ab, bc, ac), (Less, Less, Less), "{eco}");
    }
}

#[test]
fn rebuilt_versions_keep_their_ecosystem() {
    for (raw, eco) in [("1.0~rc1", "auto"), ("1!2.0", "python"), ("1.0", "DOCKER"), ("2.0.0", "npm")] {
        let v = Version::new(raw, eco).unwrap();
        let w = Version::new(v.raw(), v.ecosystem()).unwrap();
        assert_eq!(w.eco, v.eco);
        assert_eq!(w.richcmp_ord(&v), Equal);
    }
}

#[test]
fn prefix_and_build_are_ignored() {
    assert_eq!(parse("v1.2").segments, parse("1.2").segments);
    assert_eq!(parse("V1.2").segments, parse("1.2").segments);
    assert_eq!(parse("1:1.2+x.y").segments, parse("1:1.2").segments);
    assert_eq!(compare_str_with_ecosystem("1.0+build", "1.0+other", "generic"), Ok(Equal));
}

#[test]
fn sort_keys_order_numeric_versions() {
    let k = |s: &str| Version::new(s, "generic").unwrap().sort_key();
    for (a, b) in [("1.2", "1.10"), ("1.0", "1.0.0"), ("2", "1.9.9"), ("1!1", "2"), ("1.0.1", "1")] {
        let by_key = k(a).cmp(&k(b));
        assert_eq!(by_key, compare_str_with_ecosystem(a, b, "generic").unwrap(), "{a} vs {b}");
    }
}

#[test]
fn sort_keys_order_versions_with_words() {
    let k = |s: &str| Version::new(s, "generic").unwrap().sort_key();
    for (a, b) in [
        ("1-alpha", "1"),
        ("1a1", "1b1"),
        ("1rc1", "1cr1"),
        ("1-foo", "1-bar"),
        ("1-foo", "1"),
        ("1-final", "1"),
        ("1-post", "1"),
        ("1.2.3-alpha", "1.2.3-beta.2"),
        ("1.2-sp", "1.2.1"),
        ("2-dev", "2~1"),
        ("1.0.0-alpha", "1.0.0"),
        ("1.0.0-alpha", "1.0.0-beta.2"),
        ("1.0.0-rc.1", "1.0.1"),
        ("2.0.0-alpha", "1.9.9"),
        ("1.0-alpha", "1.0"),
        ("1.0.0-post", "1.0.0-final"),
    ] {
        let by_key = k(a).cmp(&k(b));
        assert_eq!(by_key, compare_str_with_ecosystem(a, b, "generic").unwrap(), "{a} vs {b}");
    }
    assert_eq!(k("1.0-rc1"), k("1.0-cr1"));
}

#[test]
fn generic_comparison_goes_round() {
    let g = |a: &str, b: &str| compare_str_with_ecosystem(a, b, "generic").unwrap();
    assert_eq!(g("1.0.0-alpha", "1.0-post"), Greater);
    assert_eq!(g("1.0-post", "1"), Greater);
    assert_eq!(g("1", "1.0.0-alpha"), Greater);
}

#[test]
fn sort_keys_can_merge_unequal_versions() {
    let k = |s: &str| Version::new(s, "generic").unwrap().sort_key();
    assert_eq!(k("1.0-alpha"), k("1.0.0.alpha"));
    assert_eq!(compare_str_with_ecosystem("1.0-alpha", "1.0.0.alpha", "generic"), Ok(Less));
}

#[test]
fn generic_equality_chains() {
    let g = |a: &str, b: &str| compare_str_with_ecosystem(a, b, "generic").unwrap();
    assert_eq!(g("1.0a1", "1.0alpha1"), Equal);
    assert_eq!(g("1.0alpha1", "1.0.0-alpha.1"), Equal);
    assert_eq!(g("1.0a1", "1.0.0-alpha.1"), Equal);
}

#[test]
fn build_metadata_is_kept_apart() {
    for (a, b) in [("1:2.0-rc1", "Build.7"), ("1.2.3", "x"), ("v3.0.post2", ""), ("", "meta")] {
        let joined = format!("{a}+{b}");
        let p = parse(&joined);
        let q = parse(a);
        assert_eq!(p.raw, joined);
        assert_eq!(p.epoch, q.epoch, "{joined}");
        assert_eq!(p.segments, q.segments, "{joined}");
        assert_eq!(p.is_prerelease, q.is_prerelease, "{joined}");
        assert_eq!(p.is_postrelease, q.is_postrelease, "{joined}");
        assert_eq!(p.build, b, "{joined}");
    }
}

#[test]
fn case_and_separators_do_not_change_the_reading() {
    for (a, b) in [("1.0-RC_1", "1_0.rc-1"), ("2!1.2.3-Beta", "2!1-2_3.beta"), ("V1.0-Final", "v1_0_final")] {
        let (p, q) = (parse(a), parse(b));
        assert_eq!(p.epoch, q.epoch, "{a} vs {b}");
        assert_eq!(p.segments, q.segments, "{a} vs {b}");
        assert_eq!(p.is_prerelease, q.is_prerelease, "{a} vs {b}");
        assert_eq!(p.is_postrelease, q.is_postrelease, "{a} vs {b}");
    }
}

#[test]
fn dpkg_comparison_is_antisymmetric_and_reflexive() {
    let d = |a: &str, b: &str| compare_str_with_ecosystem(a, b, "debian").unwrap();
    for (a, b) in [("1.0~rc1", "1.0"), ("1.0a", "1.0+b"), ("2:1.0", "1:9.9"), ("1.0-1", "1.0-1ubuntu1")] {
        assert_eq!(d(a, b), d(b, a).reverse(), "{a} vs {b}");
        assert_eq!(d(a, a), Equal);
    }
}

#[test]
fn pep440_r_and_rev_weigh_as_the_release() {
    assert_eq!(anyver::parser::tag_weight("r"), Some(30));
    assert_eq!(anyver::parser::tag_weight("rev"), Some(30));
    assert_eq!(anyver::parser::tag_weight("re"), None);
    assert_eq!(compare_str_with_ecosystem("1.0-r", "1.0", "generic"), Ok(Equal));
    assert_eq!(compare_str_with_ecosystem("1.0.rev", "1.0.0", "generic"), Ok(Equal));
}

#[test]
fn checked_bumps_refuse_only_the_largest_number() {
    let max = u64::MAX.to_string();
    assert_eq!(bump_major_checked("1.2.3"), Some("2.0.0".to_string()));
    assert_eq!(bump_major_checked(&format!("{max}.1.1")), None);
    assert_eq!(bump_minor_checked("1.2.3"), Some("1.3.0".to_string()));
    assert_eq!(bump_minor_checked(&format!("1.{max}.1")), None);
    assert_eq!(bump_patch_checked("1.2.3"), Some("1.2.4".to_string()));
    assert_eq!(bump_patch_checked(&format!("1.1.{max}")), None);
    assert_eq!(bump_prerelease_checked("1.0.0-alpha.1", "alpha"), Some("1.0.0-alpha.2".to_string()));
    assert_eq!(bump_prerelease_checked(&format!("1.0.0-alpha.{max}"), "ALPHA"), None);
    assert_eq!(
        bump_prerelease_checked(&format!("1.0.0-beta.{max}"), "alpha"),
        Some("1.0.0-alpha.0".to_string())
    );
}
