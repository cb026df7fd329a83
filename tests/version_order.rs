use rpkg::debversion::{cmp_debversion_with_op, DebianVersionNum, VersionError, VersionRelation};

fn v(s: &str) -> DebianVersionNum {
    DebianVersionNum::parse(s).unwrap()
}

fn cmp(a: &str, b: &str) -> i8 {
    v(a).compare(&v(b))
}

#[test]
fn revision_numbers_compare_numerically() {
    assert_eq!(cmp("1:0.4.5+cvs20030824-9", "1:0.4.5+cvs20030824-10"), -1);
    assert_eq!(cmp("1:0.4.5+cvs20030824-10", "1:0.4.5+cvs20030824-9"), 1);
}

#[test]
fn letters_compare_in_order() {
    assert_eq!(cmp("a", "b"), -1);
    assert_eq!(cmp("b", "a"), 1);
    assert_eq!(cmp("a", "a"), 0);
}

#[test]
fn revision_decides_when_upstream_equal() {
    assert_eq!(cmp("1-a", "1-b"), -1);
    assert_eq!(cmp("2-a", "1-b"), 1);
}

#[test]
fn tilde_sorts_first() {
    assert_eq!(cmp("a", "~a"), 1);
    assert_eq!(cmp("1.0~beta", "1.0"), -1);
    assert_eq!(cmp("aa~", "aa"), -1);
    assert_eq!(cmp("aa", "aaa"), -1);
}

#[test]
fn longer_numeric_tail_is_greater() {
    assert_eq!(cmp("1.0", "1.0.1"), -1);
    assert_eq!(cmp("1.0.1", "1.0"), 1);
}

#[test]
fn leading_zeros_are_insignificant() {
    assert_eq!(cmp("1.007", "1.7"), 0);
    assert_eq!(cmp("01:1.0", "1:1.0"), 0);
}

#[test]
fn epoch_dominates() {
    assert_eq!(cmp("1:0.1", "9.9"), 1);
    assert_eq!(cmp("0:2.0", "2.0"), 0);
}

#[test]
fn letters_sort_before_other_characters() {
    assert_eq!(cmp("1.0a", "1.0+"), -1);
    assert_eq!(cmp("1.0+", "1.0a"), 1);
}

#[test]
fn parse_splits_epoch_upstream_revision() {
    let x = v("2:1.0-2-3");
    assert_eq!(x.to_string(), "2:1.0-2-3");
    assert_eq!(cmp("2:1.0-2-3", "2:1.0-2-4"), -1);
    assert_eq!(v("1.0").to_string(), "1.0");
    assert_eq!(v("1.0-").to_string(), "1.0");
}

#[test]
fn parse_rejects_malformed_versions() {
    assert!(matches!(DebianVersionNum::parse(""), Err(VersionError::MalformedVersion)));
    assert!(matches!(DebianVersionNum::parse("1:"), Err(VersionError::MalformedVersion)));
    assert!(matches!(DebianVersionNum::parse(":1.0"), Err(VersionError::MalformedVersion)));
    assert!(matches!(DebianVersionNum::parse("x:1.0"), Err(VersionError::MalformedVersion)));
    assert!(matches!(DebianVersionNum::parse("-1"), Err(VersionError::MalformedVersion)));
    assert!(matches!(
        DebianVersionNum::parse("1.99999999999999999999"),
        Err(VersionError::MalformedVersion)
    ));
    assert!(matches!(
        DebianVersionNum::parse("99999999999999999999:1"),
        Err(VersionError::MalformedVersion)
    ));
}

#[test]
fn largest_numbers_are_accepted() {
    assert_eq!(cmp("1.18446744073709551615", "1.18446744073709551614"), 1);
    assert_eq!(cmp("18446744073709551615:1", "1:1"), 1);
}

#[test]
fn relations_parse_and_print() {
    for (t, r) in [
        ("<<", VersionRelation::StrictlyLess),
        ("<=", VersionRelation::LessOrEqual),
        ("=", VersionRelation::Equal),
        (">=", VersionRelation::GreaterOrEqual),
        (">>", VersionRelation::StrictlyGreater),
    ] {
        assert_eq!(VersionRelation::parse(t), Ok(r));
        assert_eq!(r.to_string(), t);
    }
    assert_eq!(VersionRelation::parse("<"), Err(VersionError::MalformedRelation));
    assert_eq!(VersionRelation::parse(""), Err(VersionError::MalformedRelation));
}

#[test]
fn relation_evaluation() {
    let a = v("1.0");
    let b = v("1.5");
    assert!(cmp_debversion_with_op(&VersionRelation::StrictlyLess, &a, &b));
    assert!(cmp_debversion_with_op(&VersionRelation::LessOrEqual, &a, &b));
    assert!(!cmp_debversion_with_op(&VersionRelation::Equal, &a, &b));
    assert!(!cmp_debversion_with_op(&VersionRelation::GreaterOrEqual, &a, &b));
    assert!(!cmp_debversion_with_op(&VersionRelation::StrictlyGreater, &a, &b));
    assert!(cmp_debversion_with_op(&VersionRelation::Equal, &v("1.01"), &v("1.1")));
}

#[test]
fn greater_or_equal_reflexive_strictly_less_irreflexive() {
    for s in ["1.0", "1:2.3-4", "~", "a~b", "0"] {
        let x = v(s);
        assert!(cmp_debversion_with_op(&VersionRelation::GreaterOrEqual, &x, &x));
        assert!(!cmp_debversion_with_op(&VersionRelation::StrictlyLess, &x, &x));
    }
}

#[test]
fn order_is_antisymmetric_and_transitive_on_samples() {
    let all = ["1.0~rc1", "1.0", "1.0a", "1.0+b", "1.0.1", "1:0.1", "2.0-1", "2.0-1~x"];
    for a in all {
        for b in all {
            assert_eq!(cmp(a, b), -cmp(b, a));
            for c in all {
                if cmp(a, b) <= 0 && cmp(b, c) <= 0 {
                    assert!(cmp(a, c) <= 0);
                }
            }
        }
    }
}
