use parser_wasm::diagnostics::Diagnostic;
use parser_wasm::version::{
    check_custom_gates_version, check_number_version, parse_number_version, Version,
};

fn v(major: usize, minor: usize, patch: usize) -> Version {
    Version::new(major, minor, patch)
}

#[test]
fn older_declared_version_passes_silently() {
    let r = check_number_version("/a.circom".to_string(), Some(v(2, 0, 0)), v(2, 1, 5));
    assert_eq!(r, Ok(vec![]));
}

#[test]
fn equal_declared_version_passes_silently() {
    let r = check_number_version("/a.circom".to_string(), Some(v(2, 1, 5)), v(2, 1, 5));
    assert_eq!(r, Ok(vec![]));
}

#[test]
fn newer_declared_version_fails() {
    let r = check_number_version("/a.circom".to_string(), Some(v(2, 1, 6)), v(2, 1, 5));
    assert_eq!(
        r,
        Err(Diagnostic::VersionMismatch {
            path: "/a.circom".to_string(),
            required: v(2, 1, 6),
            actual: v(2, 1, 5),
        })
    );
}

#[test]
fn newer_minor_beats_older_patch() {
    assert!(check_number_version("/a".to_string(), Some(v(2, 2, 0)), v(2, 1, 5)).is_err());
    assert!(check_number_version("/a".to_string(), Some(v(1, 9, 9)), v(2, 1, 5)).is_ok());
    assert!(check_number_version("/a".to_string(), Some(v(3, 0, 0)), v(2, 1, 5)).is_err());
}

#[test]
fn missing_declared_version_warns_with_the_compiler_version() {
    let r = check_number_version("/a.circom".to_string(), None, v(2, 1, 5));
    let warnings = r.unwrap();
    assert_eq!(
        warnings,
        vec![Diagnostic::MissingVersionPragma { path: "/a.circom".to_string(), actual: v(2, 1, 5) }]
    );
    assert!(warnings[0].is_warning());
}

#[test]
fn custom_gates_need_version_2_0_6() {
    let too_low = check_custom_gates_version("/g.circom".to_string(), Some(v(2, 0, 5)), v(2, 1, 5));
    assert_eq!(
        too_low,
        Err(Diagnostic::CustomGatesVersionTooLow {
            path: "/g.circom".to_string(),
            minimum: v(2, 0, 6),
            effective: v(2, 0, 5),
        })
    );
    assert_eq!(check_custom_gates_version("/g.circom".to_string(), Some(v(2, 0, 6)), v(2, 1, 5)), Ok(()));
    assert_eq!(check_custom_gates_version("/g.circom".to_string(), Some(v(2, 0, 7)), v(2, 1, 5)), Ok(()));
}

#[test]
fn custom_gates_fall_back_to_the_compiler_version() {
    assert_eq!(check_custom_gates_version("/g.circom".to_string(), None, v(2, 0, 6)), Ok(()));
    assert_eq!(
        check_custom_gates_version("/g.circom".to_string(), None, v(2, 0, 5)),
        Err(Diagnostic::CustomGatesVersionTooLow {
            path: "/g.circom".to_string(),
            minimum: v(2, 0, 6),
            effective: v(2, 0, 5),
        })
    );
    assert!(check_custom_gates_version("/g.circom".to_string(), None, v(1, 9, 9)).is_err());
    assert!(check_custom_gates_version("/g.circom".to_string(), None, v(3, 0, 0)).is_ok());
}

#[test]
fn version_string_is_read_component_by_component() {
    assert_eq!(parse_number_version("2.1.5"), v(2, 1, 5));
    assert_eq!(parse_number_version("10.20.30"), v(10, 20, 30));
    assert_eq!(parse_number_version("+2.01.5"), v(2, 1, 5));
}

#[test]
fn missing_components_count_as_zero() {
    assert_eq!(parse_number_version("2.1"), v(2, 1, 0));
    assert_eq!(parse_number_version("2"), v(2, 0, 0));
    assert_eq!(parse_number_version(""), v(0, 0, 0));
    assert_eq!(parse_number_version("2..5"), v(2, 0, 5));
}

#[test]
fn components_that_are_no_numbers_count_as_zero() {
    assert_eq!(parse_number_version("a.1.b"), v(0, 1, 0));
    assert_eq!(parse_number_version("1.2.3.4"), v(1, 2, 0));
    assert_eq!(parse_number_version("1.-2.3"), v(1, 0, 3));
    assert_eq!(parse_number_version("1. 2.3"), v(1, 0, 3));
    assert_eq!(parse_number_version("1.+.3"), v(1, 0, 3));
    assert_eq!(parse_number_version("99999999999999999999999999.1.1"), v(0, 1, 1));
}

#[test]
fn largest_component_is_read() {
    let text = format!("{}.0.0", usize::MAX);
    assert_eq!(parse_number_version(&text), v(usize::MAX, 0, 0));
}

#[test]
fn version_order_is_lexicographic() {
    assert!(v(2, 0, 0).at_most(&v(2, 1, 5)));
    assert!(v(2, 1, 5).at_most(&v(2, 1, 5)));
    assert!(!v(2, 1, 6).at_most(&v(2, 1, 5)));
    assert!(v(1, 99, 99).at_most(&v(2, 0, 0)));
    assert!(!v(2, 0, 0).at_most(&v(1, 99, 99)));
}
