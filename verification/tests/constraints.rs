use rattler::constraints::{
    BuildRange, ComplementCache, MatchSpec, MatchSpecConstraints, MatchSpecElement, PackageRecord,
    VersionRange,
};
use rattler::version::Version;
use std::str::FromStr;

fn record(version: &str, build_number: u64) -> PackageRecord {
    PackageRecord {
        name: "".to_string(),
        version: Version::from_str(version).unwrap(),
        build: "".to_string(),
        build_number,
    }
}

#[test]
fn complement() {
    let record = record("1.2.3", 1);

    let constraint = MatchSpecConstraints::singleton(record.clone());

    assert!(constraint.contains(&record));
    assert!(!constraint.complement().contains(&record));

    assert_eq!(constraint.intersection(&constraint), constraint);
    assert_eq!(
        constraint.intersection(&constraint.complement()),
        MatchSpecConstraints::empty()
    );

    assert_eq!(
        constraint
            .complement()
            .complement()
            .complement()
            .complement(),
        constraint
    );
    assert_eq!(
        constraint.complement().complement().complement(),
        constraint.complement()
    );

    assert_eq!(
        MatchSpecConstraints::empty(),
        constraint.complement().intersection(&constraint)
    );
    assert_eq!(
        MatchSpecConstraints::full(),
        constraint.complement().union(&constraint)
    );
}

#[test]
fn empty_and_full_membership() {
    let p = record("3.0.1", 7);
    assert!(!MatchSpecConstraints::empty().contains(&p));
    assert!(MatchSpecConstraints::full().contains(&p));
}

#[test]
fn singleton_membership() {
    let p = record("1.2.3", 1);
    let other_build = record("1.2.3", 2);
    let other_version = record("1.2.4", 1);
    let c = MatchSpecConstraints::singleton(p.clone());
    assert!(c.contains(&p));
    assert!(!c.contains(&other_build));
    assert!(!c.contains(&other_version));
    assert!(!c.complement().contains(&p));
    assert!(c.complement().contains(&other_build));
    assert!(c.complement().contains(&other_version));
}

#[test]
fn identical_versions_distinct_builds_are_disjoint() {
    let vr = || Some(VersionRange::equal(Version::new(4, 1, 0)));
    let c1 = MatchSpecConstraints::from_match_spec(MatchSpec {
        version: vr(),
        build_number: Some(1),
    });
    let c2 = MatchSpecConstraints::from_match_spec(MatchSpec {
        version: vr(),
        build_number: Some(2),
    });
    assert_eq!(c1.intersection(&c2), MatchSpecConstraints::empty());
    let c1_again = MatchSpecConstraints::from_match_spec(MatchSpec {
        version: vr(),
        build_number: Some(1),
    });
    let c2_again = MatchSpecConstraints::from_match_spec(MatchSpec {
        version: vr(),
        build_number: Some(2),
    });
    assert_eq!(c1.intersection(&c1_again), c1_again);
    assert_eq!(c2.intersection(&c2_again), c2_again);
}

#[test]
fn intersection_identities() {
    let c = MatchSpecConstraints::singleton(record("2.0.0", 3));
    assert_eq!(MatchSpecConstraints::full().intersection(&c), c);
    assert_eq!(
        MatchSpecConstraints::empty().intersection(&c),
        MatchSpecConstraints::empty()
    );
    assert_eq!(
        MatchSpecConstraints::full().intersection(&MatchSpecConstraints::full()),
        MatchSpecConstraints::full()
    );
}

#[test]
fn complement_of_empty_and_full() {
    assert_eq!(
        MatchSpecConstraints::empty().complement(),
        MatchSpecConstraints::full()
    );
    assert_eq!(
        MatchSpecConstraints::full().complement(),
        MatchSpecConstraints::empty()
    );
}

#[test]
fn match_spec_without_constraints_is_full() {
    let c = MatchSpecConstraints::from_match_spec(MatchSpec {
        version: None,
        build_number: None,
    });
    assert_eq!(c, MatchSpecConstraints::full());
    let p = record("9.9.9", 42);
    assert!(c.contains(&p));
}

#[test]
fn match_spec_build_number_only() {
    let c = MatchSpecConstraints::from_match_spec(MatchSpec {
        version: None,
        build_number: Some(5),
    });
    assert!(c.contains(&record("1.0.0", 5)));
    assert!(c.contains(&record("7.7.7", 5)));
    assert!(!c.contains(&record("1.0.0", 4)));
}

#[test]
fn element_contains() {
    let p = record("1.0.0", 0);
    assert!(MatchSpecElement::any().contains(&p));
    assert!(!MatchSpecElement::none().contains(&p));
    let any_set = MatchSpecConstraints::from_element(MatchSpecElement::any());
    assert_eq!(any_set, MatchSpecConstraints::full());
    let none_set = MatchSpecConstraints::from_element(MatchSpecElement::none());
    assert_eq!(none_set, MatchSpecConstraints::empty());
}

#[test]
fn element_intersection_collapses() {
    let a = MatchSpecElement::any();
    let n = MatchSpecElement::none();
    let p = record("1.0.0", 0);
    assert!(!a.intersection(&n).contains(&p));
    assert!(a.intersection(&a).contains(&p));
}

#[test]
fn ranges_negate_and_intersect() {
    let p = record("1.2.3", 8);
    let b = BuildRange::equal(8);
    assert!(b.contains(8));
    assert!(!b.contains(9));
    let nb = b.negate();
    assert!(!nb.contains(8));
    assert!(nb.contains(9));
    let v = VersionRange::equal(Version::new(1, 2, 3));
    assert!(v.contains(&p.version));
    assert!(!v.negate().contains(&p.version));
    let both = b.intersection(&BuildRange::any());
    assert!(both.contains(8));
    assert!(!both.contains(7));
}

#[test]
fn cache_agrees_for_equal_values() {
    let mut cache = ComplementCache::new();
    let a = MatchSpecConstraints::singleton(record("1.2.3", 1));
    let b = MatchSpecConstraints::from_match_spec(MatchSpec {
        version: Some(VersionRange::equal(Version::new(1, 2, 3))),
        build_number: Some(1),
    });
    assert_eq!(a, b);
    let ca = cache.complement(&a);
    let cb = cache.complement(&b);
    assert_eq!(ca, cb);
    assert_eq!(ca, a.complement());
    let mut other_cache = ComplementCache::new();
    assert_eq!(other_cache.complement(&b), ca);
    let mut third_cache = ComplementCache::new();
    let (x, y) = rattler::laws::complements_of_equal_sets_agree(&mut third_cache, &a, &b);
    assert_eq!(x, y);
    assert_eq!(x, ca);
}

#[test]
fn intersection_is_commutative() {
    let a = MatchSpecConstraints::singleton(record("1.2.3", 1)).complement();
    let b = MatchSpecConstraints::singleton(record("4.5.6", 2)).complement();
    assert_eq!(a.intersection(&b), b.intersection(&a));
    let c = MatchSpecConstraints::singleton(record("1.2.3", 1));
    assert_eq!(a.intersection(&c), c.intersection(&a));
    assert_eq!(a.union(&b), b.union(&a));
}

#[test]
fn full_is_identity_for_intersection() {
    let a = MatchSpecConstraints::singleton(record("1.2.3", 1)).complement();
    assert_eq!(a.intersection(&MatchSpecConstraints::full()), a);
    assert_eq!(MatchSpecConstraints::full().intersection(&a), a);
}

#[test]
fn impossible_version_range_gives_empty() {
    let c = MatchSpecConstraints::from_match_spec(MatchSpec {
        version: Some(VersionRange::none()),
        build_number: Some(1),
    });
    assert_eq!(c, MatchSpecConstraints::empty());
    assert!(!c.contains(&record("1.0.0", 1)));
}

#[test]
fn union_derived_from_de_morgan() {
    let a = MatchSpecConstraints::from_match_spec(MatchSpec {
        version: None,
        build_number: Some(1),
    });
    let b = MatchSpecConstraints::from_match_spec(MatchSpec {
        version: None,
        build_number: Some(2),
    });
    let u = a.union(&b);
    assert!(u.contains(&record("1.0.0", 1)));
    assert!(u.contains(&record("1.0.0", 2)));
    assert!(!u.contains(&record("1.0.0", 3)));
    assert_eq!(a.union(&a.complement()), MatchSpecConstraints::full());
}
