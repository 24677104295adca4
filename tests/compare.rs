use std::cmp::Ordering;
use version_cmp::boundary::{compare_texts, CompareError, PARSE_ERROR_CODE};
use version_cmp::precedence::{compare_identifier, compare_prerelease, split_at_dots};
use version_cmp::version::{parse_version, strip_v_prefix, ParseError};
use version_cmp::{version_compare, version_has_update};

fn h(s: &str) -> Option<&[u8]> {
    Some(s.as_bytes())
}

#[test]
fn test_version_compare() {
    assert_eq!(version_compare(h("2.6.0"), h("2.5.0")), 1);
    assert_eq!(version_compare(h("2.5.0"), h("2.6.0")), -1);
    assert_eq!(version_compare(h("2.6.0"), h("2.6.0")), 0);
}

#[test]
fn test_version_compare_edge_cases() {
    assert_eq!(version_compare(h("2.10.0"), h("2.9.0")), 1);
    assert_eq!(version_compare(h("v2.6.0"), h("2.5.0")), 1);
    assert_eq!(version_compare(h("v2.6.0"), h("v2.5.0")), 1);
}

#[test]
fn test_version_has_update() {
    assert!(version_has_update(h("2.5.0"), h("2.6.0")));
    assert!(!version_has_update(h("2.6.0"), h("2.5.0")));
    assert!(!version_has_update(h("2.6.0"), h("2.6.0")));
}

#[test]
fn has_update_false_on_bad_input() {
    assert!(!version_has_update(h("2.5.0"), h("two")));
    assert!(!version_has_update(h("2.x.0"), h("2.6.0")));
    assert!(!version_has_update(None, h("2.6.0")));
    assert!(!version_has_update(h("2.5.0"), None));
}

#[test]
fn swapped_arguments_negate() {
    let pairs = [("1.2.3", "1.2.4"), ("1.0.0-rc.1", "1.0.0"), ("3.0.0", "2.99.99"), ("1.1.1", "1.1.1")];
    for (a, b) in pairs {
        assert_eq!(version_compare(h(a), h(b)), -version_compare(h(b), h(a)));
    }
}

#[test]
fn lower_chain_is_transitive() {
    assert_eq!(version_compare(h("1.0.0-alpha"), h("1.0.0-beta")), -1);
    assert_eq!(version_compare(h("1.0.0-beta"), h("1.0.0")), -1);
    assert_eq!(version_compare(h("1.0.0-alpha"), h("1.0.0")), -1);
}

#[test]
fn equal_to_itself() {
    for x in ["0.0.0", "1.0.0-alpha.1+build.5", "v10.20.30"] {
        assert_eq!(version_compare(h(x), h(x)), 0);
    }
}

#[test]
fn leading_v_is_ignored() {
    assert_eq!(version_compare(h("v2.6.0"), h("2.5.0")), version_compare(h("2.6.0"), h("2.5.0")));
    assert_eq!(version_compare(h("2.6.0"), h("2.5.0")), version_compare(h("v2.6.0"), h("v2.5.0")));
    assert_eq!(version_compare(h("1.0.0"), h("v1.0.0")), 0);
    assert_eq!(version_compare(h("vv1.0.0"), h("1.0.0")), PARSE_ERROR_CODE);
    assert_eq!(version_compare(h("V1.0.0"), h("1.0.0")), PARSE_ERROR_CODE);
}

#[test]
fn numbers_compare_by_value() {
    assert_eq!(version_compare(h("2.10.0"), h("2.9.0")), 1);
    assert_eq!(version_compare(h("1.2.10"), h("1.2.9")), 1);
    assert_eq!(version_compare(h("10.0.0"), h("9.0.0")), 1);
}

#[test]
fn absent_and_malformed_give_error_code() {
    assert_eq!(PARSE_ERROR_CODE, -999);
    assert_eq!(version_compare(None, h("1.0.0")), PARSE_ERROR_CODE);
    assert_eq!(version_compare(h("1.0.0"), None), PARSE_ERROR_CODE);
    assert_eq!(version_compare(None, None), PARSE_ERROR_CODE);
    assert_eq!(version_compare(h("1.0"), h("1.0.0")), PARSE_ERROR_CODE);
    assert_eq!(version_compare(h("1.0.0"), h("1.0.x")), PARSE_ERROR_CODE);
    assert_eq!(version_compare(h(""), h("1.0.0")), PARSE_ERROR_CODE);
    assert_eq!(version_compare(h("1..0"), h("1.0.0")), PARSE_ERROR_CODE);
    assert_eq!(version_compare(h("1.0.0 "), h("1.0.0")), PARSE_ERROR_CODE);
    assert_eq!(version_compare(h("01.0.0"), h("1.0.0")), PARSE_ERROR_CODE);
    assert_eq!(version_compare(h("1.0.0-"), h("1.0.0")), PARSE_ERROR_CODE);
    assert_eq!(version_compare(h("1.0.0-alpha_1"), h("1.0.0")), PARSE_ERROR_CODE);
}

#[test]
fn overflowing_component_is_rejected() {
    assert_eq!(version_compare(h("18446744073709551615.0.0"), h("1.0.0")), 1);
    assert_eq!(version_compare(h("18446744073709551616.0.0"), h("1.0.0")), PARSE_ERROR_CODE);
}

#[test]
fn invalid_encoding_is_rejected() {
    let bad: &[u8] = &[0x31, 0x2e, 0xff, 0x2e, 0x30];
    assert_eq!(version_compare(Some(bad), h("1.0.0")), PARSE_ERROR_CODE);
    assert_eq!(compare_texts(Some(bad), h("1.0.0")), Err(CompareError::InvalidEncoding));
    assert_eq!(parse_version(bad).err(), Some(ParseError::InvalidEncoding));
}

#[test]
fn prerelease_ordering() {
    assert_eq!(version_compare(h("1.0.0-alpha"), h("1.0.0")), -1);
    assert_eq!(version_compare(h("1.0.0-alpha"), h("1.0.0-alpha.1")), -1);
    assert_eq!(version_compare(h("1.0.0-alpha.1"), h("1.0.0-alpha.beta")), -1);
    assert_eq!(version_compare(h("1.0.0-beta.2"), h("1.0.0-beta.11")), -1);
    assert_eq!(version_compare(h("1.0.0-rc.1"), h("1.0.0-beta.11")), 1);
    assert_eq!(version_compare(h("1.0.0-pre12"), h("1.0.0-pre8")), -1);
}

#[test]
fn long_numeric_prerelease_identifiers() {
    assert_eq!(
        version_compare(h("1.0.0-99999999999999999999999"), h("1.0.0-100000000000000000000000")),
        -1
    );
}

#[test]
fn build_metadata_is_ignored() {
    assert_eq!(version_compare(h("1.0.0+a"), h("1.0.0+b")), 0);
    assert_eq!(version_compare(h("1.0.0-rc.1+z"), h("1.0.0-rc.1")), 0);
}

#[test]
fn compare_texts_reports_each_error() {
    assert_eq!(compare_texts(None, h("1.0.0")), Err(CompareError::NullInput));
    assert_eq!(compare_texts(h("1.0"), h("1.0.0")), Err(CompareError::MalformedVersion));
    assert_eq!(compare_texts(h("1.0.0"), h("abc")), Err(CompareError::MalformedVersion));
    assert_eq!(compare_texts(h("1.0.0"), h("2.0.0")), Ok(Ordering::Less));
}

#[test]
fn parse_version_reads_fields() {
    let v = parse_version(b"v1.22.333-rc.1+build.7").ok().unwrap();
    assert_eq!(v.major, 1);
    assert_eq!(v.minor, 22);
    assert_eq!(v.patch, 333);
    assert_eq!(v.pre, b"rc.1".to_vec());
    assert_eq!(v.build, b"build.7".to_vec());
    assert_eq!(parse_version(b"1.2").err(), Some(ParseError::Malformed));
}

#[test]
fn strip_v_prefix_takes_one() {
    assert_eq!(strip_v_prefix(b"v1.0.0"), b"1.0.0");
    assert_eq!(strip_v_prefix(b"vv1"), b"v1");
    assert_eq!(strip_v_prefix(b"1.0.0"), b"1.0.0");
    assert_eq!(strip_v_prefix(b""), b"");
}

#[test]
fn identifiers_and_splitting() {
    assert_eq!(compare_identifier(b"0010", b"9"), Ordering::Greater);
    assert_eq!(compare_identifier(b"7", b"07"), Ordering::Equal);
    assert_eq!(compare_identifier(b"999", b"a"), Ordering::Less);
    assert_eq!(compare_identifier(b"B", b"a"), Ordering::Less);
    assert_eq!(split_at_dots(b"a.1..b"), vec![b"a".to_vec(), b"1".to_vec(), vec![], b"b".to_vec()]);
    assert_eq!(compare_prerelease(b"", b"alpha"), Ordering::Greater);
    assert_eq!(compare_prerelease(b"alpha", b"alpha.0"), Ordering::Less);
}
