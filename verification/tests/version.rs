use rattler::version::{ParseVersionError, Version};
use std::str::FromStr;

#[test]
fn parse_dotted_triple() {
    assert_eq!(Version::parse("1.2.3"), Some(Version::new(1, 2, 3)));
    assert_eq!(Version::parse("0.0.0"), Some(Version::new(0, 0, 0)));
    assert_eq!(Version::parse("01.2.3"), Some(Version::new(1, 2, 3)));
    assert_eq!(
        Version::parse("18446744073709551615.0.0"),
        Some(Version::new(u64::MAX, 0, 0))
    );
}

#[test]
fn parse_refuses_malformed_versions() {
    assert_eq!(Version::parse(""), None);
    assert_eq!(Version::parse("1"), None);
    assert_eq!(Version::parse("1.2"), None);
    assert_eq!(Version::parse("1.2.3.4"), None);
    assert_eq!(Version::parse("1..3"), None);
    assert_eq!(Version::parse(".1.2"), None);
    assert_eq!(Version::parse("1.2."), None);
    assert_eq!(Version::parse("1.2.x"), None);
    assert_eq!(Version::parse("18446744073709551616.0.0"), None);
}

#[test]
fn from_str_reports_parse_errors() {
    assert_eq!(Version::from_str("1.2.3"), Ok(Version::new(1, 2, 3)));
    assert_eq!(Version::from_str("abc"), Err(ParseVersionError));
}

#[test]
fn version_order_is_lexicographic() {
    let a = Version::new(1, 2, 3);
    let b = Version::new(1, 3, 0);
    let c = Version::new(2, 0, 0);
    assert!(a.lt(&b));
    assert!(b.lt(&c));
    assert!(a.lt(&c));
    assert!(!b.lt(&a));
    assert!(!a.lt(&a));
}
