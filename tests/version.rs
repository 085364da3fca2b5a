use blimp::version::{ParseError, Version, VersionConstraint};
use std::cmp::Ordering;

fn v(s: &str) -> Version {
    Version::parse(s).unwrap()
}

#[test]
fn parse_components() {
    assert_eq!(v("1.2.3").components, vec![1, 2, 3]);
    assert_eq!(v("  10.0 \n").components, vec![10, 0]);
    assert_eq!(v("4294967295").components, vec![4294967295]);
}

#[test]
fn parse_rejects_empty_and_non_numeric() {
    assert_eq!(Version::parse(""), Err(ParseError::InvalidVersion));
    assert_eq!(Version::parse("1..2"), Err(ParseError::InvalidVersion));
    assert_eq!(Version::parse("1.a"), Err(ParseError::InvalidVersion));
    assert_eq!(Version::parse("1."), Err(ParseError::InvalidVersion));
    assert_eq!(Version::parse(".1"), Err(ParseError::InvalidVersion));
    assert_eq!(Version::parse("-1"), Err(ParseError::InvalidVersion));
    assert_eq!(Version::parse("4294967296"), Err(ParseError::InvalidVersion));
}

#[test]
fn format_round_trip() {
    for text in ["0", "1.2.3", "1.10.0", "4294967295.7", "2023.12.31.5"] {
        let parsed = v(text);
        assert_eq!(parsed.to_string(), text);
        assert_eq!(v(&parsed.to_string()), parsed);
    }
}

#[test]
fn compare_numerically() {
    assert_eq!(v("1.10.0").cmp(&v("1.2.3")), Ordering::Greater);
    assert_eq!(v("1.2.3").cmp(&v("1.10.0")), Ordering::Less);
    assert_eq!(v("2").cmp(&v("2")), Ordering::Equal);
}

#[test]
fn compare_shared_prefix_only() {
    assert_eq!(v("1.0").cmp(&v("1.0.0")), Ordering::Equal);
    assert_eq!(v("1.0.5").cmp(&v("1.0")), Ordering::Equal);
}

#[test]
fn constraint_parse_forms() {
    assert_eq!(VersionConstraint::parse("*"), Ok(VersionConstraint::Any));
    assert_eq!(VersionConstraint::parse("=1.0"), Ok(VersionConstraint::Equal(v("1.0"))));
    assert_eq!(VersionConstraint::parse("<=1.2"), Ok(VersionConstraint::LessOrEqual(v("1.2"))));
    assert_eq!(VersionConstraint::parse("<3"), Ok(VersionConstraint::Less(v("3"))));
    assert_eq!(VersionConstraint::parse(">=2.30"), Ok(VersionConstraint::GreaterOrEqual(v("2.30"))));
    assert_eq!(VersionConstraint::parse(">0.1"), Ok(VersionConstraint::Greater(v("0.1"))));
    assert_eq!(VersionConstraint::parse("1.4"), Ok(VersionConstraint::Equal(v("1.4"))));
}

#[test]
fn constraint_operand_whitespace_trimmed() {
    assert_eq!(VersionConstraint::parse(">= 1.0"), Ok(VersionConstraint::GreaterOrEqual(v("1.0"))));
    assert_eq!(VersionConstraint::parse("  < 2 "), Ok(VersionConstraint::Less(v("2"))));
}

#[test]
fn constraint_parse_errors() {
    assert_eq!(VersionConstraint::parse(">="), Err(ParseError::InvalidVersion));
    assert_eq!(VersionConstraint::parse("~1.0"), Err(ParseError::InvalidVersion));
    assert_eq!(VersionConstraint::parse(""), Err(ParseError::InvalidVersion));
    assert_eq!(VersionConstraint::parse("**"), Err(ParseError::InvalidVersion));
}

#[test]
fn constraint_is_valid() {
    let x = v("1.5");
    assert!(VersionConstraint::Any.is_valid(&x));
    assert!(VersionConstraint::Equal(v("1.5")).is_valid(&x));
    assert!(!VersionConstraint::Equal(v("1.6")).is_valid(&x));
    assert!(VersionConstraint::LessOrEqual(v("1.5")).is_valid(&x));
    assert!(!VersionConstraint::Less(v("1.5")).is_valid(&x));
    assert!(VersionConstraint::Less(v("1.10")).is_valid(&x));
    assert!(VersionConstraint::GreaterOrEqual(v("1.5")).is_valid(&x));
    assert!(!VersionConstraint::Greater(v("1.5")).is_valid(&x));
    assert!(VersionConstraint::Greater(v("1.4.9")).is_valid(&x));
}

#[test]
fn equal_constraint_accepts_its_version() {
    for text in ["0", "1.2.3", "7.0.0.1"] {
        assert!(VersionConstraint::Equal(v(text)).is_valid(&v(text)));
    }
}

#[test]
fn ordered_versions_meet_bounds() {
    let pairs = [("1.2.3", "1.10.0"), ("1.0", "1.0"), ("0.9", "1")];
    for (a, b) in pairs {
        let (v1, v2) = (v(a), v(b));
        assert!(VersionConstraint::GreaterOrEqual(v1.clone()).is_valid(&v2));
        assert!(VersionConstraint::LessOrEqual(v2.clone()).is_valid(&v1));
    }
}

#[test]
fn constraint_to_string() {
    assert_eq!(VersionConstraint::Any.to_string(), "*");
    assert_eq!(VersionConstraint::GreaterOrEqual(v("2.30")).to_string(), ">=2.30");
    assert_eq!(VersionConstraint::Less(v("1.0.1")).to_string(), "<1.0.1");
    assert_eq!(VersionConstraint::Equal(v("3")).to_string(), "=3");
}

#[test]
fn constraint_text_round_trip() {
    for text in ["*", "=1.0", "<=2.3.4", "<7", ">=0.0.1", ">10"] {
        let c = VersionConstraint::parse(text).unwrap();
        assert_eq!(c.to_string(), text);
        assert_eq!(VersionConstraint::parse(&c.to_string()), Ok(c));
    }
}
